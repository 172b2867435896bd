//! Reading of greymap images in the ASCII PGM (`P2`) format.

use vstd::prelude::*;

use crate::pbm::{decimal, lemma_decimal_reads_back};
use crate::text::{
    all_digits, bounded_unsigned, float_literal, is_digit, is_float_literal, line_views,
    parse_unsigned, space_len, split_whitespace, tokens_from, whitespace_tokens,
};

verus! {

/// One pixel field of an image: a whole number that fits a `u32`, or the text
/// of any other number (such as `2.5`, `1e3`, `-1` or `4294967296`), whose
/// real value the caller reads.
#[derive(Debug, Clone, PartialEq)]
pub enum PixelField {
    Whole(u32),
    Real(Vec<u8>),
}

/// What a [`PixelField`] holds, as values.
pub enum PixelFieldView {
    Whole(u32),
    Real(Seq<u8>),
}

impl View for PixelField {
    type V = PixelFieldView;

    open spec fn view(&self) -> PixelFieldView {
        match self {
            PixelField::Whole(v) => PixelFieldView::Whole(*v),
            PixelField::Real(text) => PixelFieldView::Real(text@),
        }
    }
}

/// The views of a list of pixel fields.
pub open spec fn field_views(pixels: Seq<PixelField>) -> Seq<PixelFieldView> {
    pixels.map_values(|p: PixelField| p@)
}

/// A greymap image: its declared size, its pixel fields in the order of the
/// file, and the comment lines of its header (each with its leading `#`).
pub struct Pgm {
    pub width: usize,
    pub height: usize,
    pub pixels: Vec<PixelField>,
    pub comments: Vec<Vec<u8>>,
}

/// What a [`Pgm`] holds, as values.
pub struct PgmView {
    pub width: usize,
    pub height: usize,
    pub pixels: Seq<PixelFieldView>,
    pub comments: Seq<Seq<u8>>,
}

impl View for Pgm {
    type V = PgmView;

    open spec fn view(&self) -> PgmView {
        PgmView {
            width: self.width,
            height: self.height,
            pixels: field_views(self.pixels@),
            comments: line_views(self.comments@),
        }
    }
}

/// Why a text is no ASCII greymap image.
#[derive(Debug, Clone, Copy, PartialEq, Eq, Structural)]
pub enum PgmError {
    /// The text has no first line.
    Empty,
    /// The first line is not exactly `P2`.
    NotAsciiPgm,
    /// The lines end among the comment lines, before the size line.
    MissingSize,
    /// The size line has too few fields for a width and a height.
    MissingSizeField,
    /// The first field of the size line is no unsigned integer that fits a `usize`.
    BadWidth,
    /// The second field of the size line is no unsigned integer that fits a `usize`.
    BadHeight,
    /// No line follows the size line.
    MissingMaxValue,
    /// The line after the size line is no number.
    BadMaxValue,
    /// A pixel field is no number.
    BadPixel,
}

/// A comment line: one that starts with `#`.
pub open spec fn is_comment(line: Seq<u8>) -> bool {
    line.len() > 0 && line[0] == 35
}

/// The index of the first line at or after `i` that is no comment line, or
/// the number of lines when there is none.
pub open spec fn comment_end(lines: Seq<Seq<u8>>, i: int) -> int
    decreases lines.len() - i,
{
    if i < 0 || i >= lines.len() {
        lines.len() as int
    } else if is_comment(lines[i]) {
        comment_end(lines, i + 1)
    } else {
        i
    }
}

/// The whitespace-separated fields of all lines, in order.
pub open spec fn fields_of_lines(lines: Seq<Seq<u8>>) -> Seq<Seq<u8>>
    decreases lines.len(),
{
    if lines.len() == 0 {
        Seq::<Seq<u8>>::empty()
    } else {
        fields_of_lines(lines.drop_last()) + whitespace_tokens(lines.last())
    }
}

/// Every field is a pixel value: a number, as `f64::from_str` reads one.
pub open spec fn all_pixel_values(fields: Seq<Seq<u8>>) -> bool {
    forall|i: int| 0 <= i < fields.len() ==> #[trigger] is_float_literal(fields[i])
}

/// The pixel that a number field denotes: its value when it is an unsigned
/// integer that fits a `u32`, its text otherwise.
pub open spec fn pixel_of_field(field: Seq<u8>) -> PixelFieldView {
    match bounded_unsigned(field, u32::MAX as nat) {
        Some(v) => PixelFieldView::Whole(v as u32),
        None => PixelFieldView::Real(field),
    }
}

/// The pixels that the fields denote.
pub open spec fn pixel_values(fields: Seq<Seq<u8>>) -> Seq<PixelFieldView> {
    Seq::new(fields.len(), |i: int| pixel_of_field(fields[i]))
}

/// Every pixel is a whole number.
pub open spec fn all_whole(pixels: Seq<PixelFieldView>) -> bool {
    forall|i: int| 0 <= i < pixels.len() ==> #[trigger] pixels[i] is Whole
}

/// The value of a whole pixel (0 for any other).
pub open spec fn whole_value(p: PixelFieldView) -> u32 {
    match p {
        PixelFieldView::Whole(v) => v,
        PixelFieldView::Real(_) => 0,
    }
}

/// The values of a list of pixels.
pub open spec fn whole_values(pixels: Seq<PixelFieldView>) -> Seq<u32> {
    Seq::new(pixels.len(), |i: int| whole_value(pixels[i]))
}

/// The pixel values of an image all of whose pixels are whole numbers, or
/// `None` when some pixel is not.
pub fn whole_pixels(pixels: &Vec<PixelField>) -> (r: Option<Vec<u32>>)
    ensures
        r is Some <==> all_whole(field_views(pixels@)),
        r is Some ==> r->0@ == whole_values(field_views(pixels@)),
{
    let ghost views = field_views(pixels@);
    let mut out: Vec<u32> = Vec::new();
    let mut i: usize = 0;
    while i < pixels.len()
        invariant
            i <= pixels.len(),
            views == field_views(pixels@),
            forall|k: int| 0 <= k < i ==> #[trigger] views[k] is Whole,
            out@ =~= whole_values(views).take(i as int),
        decreases pixels.len() - i,
    {
        match &pixels[i] {
            PixelField::Whole(v) => {
                out.push(*v);
            },
            PixelField::Real(_) => {
                assert(!(views[i as int] is Whole));
                return None;
            },
        }
        i = i + 1;
    }
    proof {
        assert(whole_values(views).take(i as int) =~= whole_values(views));
    }
    Some(out)
}

/// The text `P2`.
pub open spec fn ascii_pgm_magic() -> Seq<u8> {
    seq![80u8, 50u8]
}

/// The image that the lines of an ASCII PGM file describe, or why they
/// describe none. The first line is `P2`; the lines that follow and start with
/// `#` are comments; the next line holds the width and the height as its first
/// two fields; the line after it holds the maximum grey value, which must be a
/// number and is otherwise ignored; every field of the remaining lines is a
/// pixel value.
pub open spec fn pgm_from_lines(lines: Seq<Seq<u8>>) -> Result<PgmView, PgmError> {
    if lines.len() == 0 {
        Err(PgmError::Empty)
    } else if lines[0] != ascii_pgm_magic() {
        Err(PgmError::NotAsciiPgm)
    } else {
        let k = comment_end(lines, 1);
        if k >= lines.len() {
            Err(PgmError::MissingSize)
        } else {
            let size = whitespace_tokens(lines[k]);
            if size.len() == 0 {
                Err(PgmError::MissingSizeField)
            } else if bounded_unsigned(size[0], usize::MAX as nat) is None {
                Err(PgmError::BadWidth)
            } else if size.len() < 2 {
                Err(PgmError::MissingSizeField)
            } else if bounded_unsigned(size[1], usize::MAX as nat) is None {
                Err(PgmError::BadHeight)
            } else if k + 1 >= lines.len() {
                Err(PgmError::MissingMaxValue)
            } else if !is_float_literal(lines[k + 1]) {
                Err(PgmError::BadMaxValue)
            } else {
                let fields = fields_of_lines(lines.skip(k + 2));
                if !all_pixel_values(fields) {
                    Err(PgmError::BadPixel)
                } else {
                    Ok(
                        PgmView {
                            width: bounded_unsigned(size[0], usize::MAX as nat)->0 as usize,
                            height: bounded_unsigned(size[1], usize::MAX as nat)->0 as usize,
                            pixels: pixel_values(fields),
                            comments: lines.subrange(1, k),
                        },
                    )
                }
            }
        }
    }
}

/// A run of bytes that holds no whitespace joins the open token.
proof fn lemma_tokens_over_run(s: Seq<u8>, i: int, j: int, pending: Seq<u8>)
    requires
        0 <= i <= j <= s.len(),
        forall|k: int| i <= k < j ==> #[trigger] space_len(s, k) == 0,
    ensures
        tokens_from(s, i, pending) == tokens_from(s, j, pending + s.subrange(i, j)),
    decreases j - i,
{
    if i < j {
        assert(space_len(s, i) == 0);
        lemma_tokens_over_run(s, i + 1, j, pending.push(s[i]));
        assert(pending.push(s[i]) + s.subrange(i + 1, j) =~= pending + s.subrange(i, j));
    } else {
        assert(pending + s.subrange(i, j) =~= pending);
    }
}

/// Two strings of digits with one space between them split into exactly those
/// two fields.
proof fn lemma_two_number_fields(a: Seq<u8>, b: Seq<u8>)
    requires
        a.len() > 0,
        b.len() > 0,
        all_digits(a),
        all_digits(b),
    ensures
        whitespace_tokens(a + seq![32u8] + b) == seq![a, b],
{
    let s = a + seq![32u8] + b;
    let n = a.len() as int;
    assert forall|k: int| 0 <= k < n implies #[trigger] space_len(s, k) == 0 by {
        assert(s[k] == a[k]);
        assert(is_digit(a[k]));
    }
    lemma_tokens_over_run(s, 0, n, Seq::<u8>::empty());
    assert(Seq::<u8>::empty() + s.subrange(0, n) =~= a);
    assert(s[n] == 32u8);
    assert(space_len(s, n) == 1);
    assert(tokens_from(s, n, a) == seq![a] + tokens_from(s, n + 1, Seq::<u8>::empty()));
    assert forall|k: int| n + 1 <= k < s.len() implies #[trigger] space_len(s, k) == 0 by {
        assert(s[k] == b[k - n - 1]);
        assert(is_digit(b[k - n - 1]));
    }
    lemma_tokens_over_run(s, n + 1, s.len() as int, Seq::<u8>::empty());
    assert(Seq::<u8>::empty() + s.subrange(n + 1, s.len() as int) =~= b);
    assert(tokens_from(s, s.len() as int, b) == seq![b]);
    assert(seq![a] + seq![b] =~= seq![a, b]);
}

/// Every size that fits a `usize` is read back: an image whose size line is
/// the decimal text of a width and a height, followed by a numeric maximum
/// value and lines of numbers, is read with that width and height, no comment
/// lines, and one pixel per field.
pub proof fn lemma_any_size_is_read(
    width: nat,
    height: nat,
    max_value: Seq<u8>,
    rest: Seq<Seq<u8>>,
)
    requires
        width <= usize::MAX,
        height <= usize::MAX,
        is_float_literal(max_value),
        all_pixel_values(fields_of_lines(rest)),
    ensures
        pgm_from_lines(
            seq![ascii_pgm_magic(), decimal(width) + seq![32u8] + decimal(height), max_value]
                + rest,
        ) matches Ok(img) && img.width == width && img.height == height
            && img.comments.len() == 0 && img.pixels.len() == fields_of_lines(rest).len(),
{
    let size_line = decimal(width) + seq![32u8] + decimal(height);
    let lines = seq![ascii_pgm_magic(), size_line, max_value] + rest;
    lemma_decimal_reads_back(width);
    lemma_decimal_reads_back(height);
    lemma_two_number_fields(decimal(width), decimal(height));
    assert(lines[0] == ascii_pgm_magic());
    assert(lines[1] == size_line);
    assert(lines[2] == max_value);
    assert(size_line[0] == decimal(width)[0]);
    assert(!is_comment(lines[1]));
    assert(comment_end(lines, 1) == 1);
    assert(lines.skip(3) =~= rest);
    assert(lines.subrange(1, 1) =~= Seq::<Seq<u8>>::empty());
}

/// The fields of the first lines of a list come first among the fields of the list.
proof fn lemma_fields_prefix(lines: Seq<Seq<u8>>, a: int)
    requires
        0 <= a <= lines.len(),
    ensures
        fields_of_lines(lines.take(a)).len() <= fields_of_lines(lines).len(),
        forall|i: int|
            0 <= i < fields_of_lines(lines.take(a)).len() ==> #[trigger] fields_of_lines(
                lines.take(a),
            )[i] == fields_of_lines(lines)[i],
    decreases lines.len(),
{
    if a == lines.len() {
        assert(lines.take(a) =~= lines);
    } else {
        let init = lines.drop_last();
        assert(lines.take(a) =~= init.take(a));
        lemma_fields_prefix(init, a);
    }
}

/// Reads the lines of an ASCII PGM file (each without its line break), as
/// [`pgm_from_lines`] describes.
pub fn parse_pgm(lines: &Vec<Vec<u8>>) -> (r: Result<Pgm, PgmError>)
    ensures
        match r {
            Ok(img) => pgm_from_lines(line_views(lines@)) == Ok::<PgmView, PgmError>(img@),
            Err(e) => pgm_from_lines(line_views(lines@)) == Err::<PgmView, PgmError>(e),
        },
{
    let ghost ls = line_views(lines@);
    let n = lines.len();
    if n == 0 {
        return Err(PgmError::Empty);
    }
    if !(lines[0].len() == 2 && lines[0][0] == 80 && lines[0][1] == 50) {
        proof {
            if ls[0] == ascii_pgm_magic() {
                assert(ls[0][0] == 80 && ls[0][1] == 50);
            }
        }
        return Err(PgmError::NotAsciiPgm);
    }
    proof {
        assert(ls[0] =~= ascii_pgm_magic());
    }
    // comment lines
    let mut comments: Vec<Vec<u8>> = Vec::new();
    let mut k: usize = 1;
    while k < n && lines[k].len() > 0 && lines[k][0] == 35
        invariant
            n == lines.len(),
            ls == line_views(lines@),
            1 <= k <= n,
            comment_end(ls, 1) == comment_end(ls, k as int),
            line_views(comments@) =~= ls.subrange(1, k as int),
        decreases n - k,
    {
        let line = lines[k].clone();
        proof {
            assert(line@ =~= lines@[k as int]@);
        }
        let ghost old_comments = line_views(comments@);
        comments.push(line);
        k = k + 1;
        proof {
            assert(line_views(comments@) =~= old_comments.push(ls[k - 1]));
            assert(ls.subrange(1, k as int) =~= ls.subrange(1, k - 1).push(ls[k - 1]));
        }
    }
    proof {
        if k < n {
            assert(!is_comment(ls[k as int]));
        }
        assert(comment_end(ls, k as int) == k);
    }
    if k >= n {
        return Err(PgmError::MissingSize);
    }
    let size = split_whitespace(&lines[k]);
    if size.len() == 0 {
        return Err(PgmError::MissingSizeField);
    }
    let width = match parse_unsigned(&size[0], usize::MAX as u64) {
        Some(w) => w as usize,
        None => {
            return Err(PgmError::BadWidth);
        },
    };
    if size.len() < 2 {
        return Err(PgmError::MissingSizeField);
    }
    let height = match parse_unsigned(&size[1], usize::MAX as u64) {
        Some(h) => h as usize,
        None => {
            return Err(PgmError::BadHeight);
        },
    };
    if k + 1 >= n {
        return Err(PgmError::MissingMaxValue);
    }
    if !float_literal(&lines[k + 1]) {
        return Err(PgmError::BadMaxValue);
    }
    // pixel fields
    let ghost rest = ls.skip(k + 2);
    let ghost all_fields = fields_of_lines(rest);
    let ghost img_view = PgmView {
        width,
        height,
        pixels: pixel_values(all_fields),
        comments: ls.subrange(1, k as int),
    };
    let ghost outcome = if all_pixel_values(all_fields) {
        Ok::<PgmView, PgmError>(img_view)
    } else {
        Err::<PgmView, PgmError>(PgmError::BadPixel)
    };
    assert(pgm_from_lines(ls) == outcome);
    let mut pixels: Vec<PixelField> = Vec::new();
    let mut j: usize = k + 2;
    while j < n
        invariant
            n == lines.len(),
            ls == line_views(lines@),
            k + 2 <= j <= n,
            rest == ls.skip(k + 2),
            all_fields == fields_of_lines(rest),
            pgm_from_lines(ls) == outcome,
            outcome == (if all_pixel_values(all_fields) {
                Ok::<PgmView, PgmError>(img_view)
            } else {
                Err::<PgmView, PgmError>(PgmError::BadPixel)
            }),
            all_pixel_values(fields_of_lines(rest.take(j - (k + 2)))),
            field_views(pixels@) =~= pixel_values(fields_of_lines(rest.take(j - (k + 2)))),
        decreases n - j,
    {
        let fields = split_whitespace(&lines[j]);
        let ghost before = fields_of_lines(rest.take(j - (k + 2)));
        let ghost upto = rest.take(j + 1 - (k + 2));
        proof {
            assert(upto.drop_last() =~= rest.take(j - (k + 2)));
            assert(upto.last() == ls[j as int]);
            assert(fields_of_lines(upto) == before + line_views(fields@));
            lemma_fields_prefix(rest, j + 1 - (k + 2));
        }
        let mut t: usize = 0;
        while t < fields.len()
            invariant
                before == fields_of_lines(rest.take(j - (k + 2))),
                fields_of_lines(upto) == before + line_views(fields@),
                upto == rest.take(j + 1 - (k + 2)),
                all_fields == fields_of_lines(rest),
                ls == line_views(lines@),
                pgm_from_lines(ls) == outcome,
                outcome == (if all_pixel_values(all_fields) {
                    Ok::<PgmView, PgmError>(img_view)
                } else {
                    Err::<PgmView, PgmError>(PgmError::BadPixel)
                }),
                fields_of_lines(upto).len() <= all_fields.len(),
                forall|i: int|
                    0 <= i < fields_of_lines(upto).len() ==> #[trigger] fields_of_lines(upto)[i]
                        == all_fields[i],
                t <= fields.len(),
                all_pixel_values(before + line_views(fields@).take(t as int)),
                field_views(pixels@) =~= pixel_values(before + line_views(fields@).take(t as int)),
            decreases fields.len() - t,
        {
            let ghost done = before + line_views(fields@).take(t as int);
            if !float_literal(&fields[t]) {
                proof {
                    assert(fields_of_lines(upto)[before.len() + t] == fields@[t as int]@);
                    assert(all_fields[before.len() + t] == fields@[t as int]@);
                    assert(!all_pixel_values(fields_of_lines(rest)));
                }
                return Err(PgmError::BadPixel);
            }
            let pixel = match parse_unsigned(&fields[t], u32::MAX as u64) {
                Some(v) => PixelField::Whole(v as u32),
                None => {
                    let text = fields[t].clone();
                    proof {
                        assert(text@ =~= fields@[t as int]@);
                    }
                    PixelField::Real(text)
                },
            };
            let ghost old_views = field_views(pixels@);
            pixels.push(pixel);
            proof {
                let done2 = before + line_views(fields@).take(t + 1);
                assert(done2 =~= done.push(fields@[t as int]@));
                assert(field_views(pixels@) =~= old_views.push(pixel@));
                assert(field_views(pixels@) =~= pixel_values(done2));
            }
            t = t + 1;
        }
        j = j + 1;
        proof {
            assert(line_views(fields@).take(t as int) =~= line_views(fields@));
        }
    }
    proof {
        assert(rest.take(j - (k + 2)) =~= rest);
        assert(line_views(comments@) =~= ls.subrange(1, k as int));
    }
    Ok(Pgm { width, height, pixels, comments })
}

} // verus!
