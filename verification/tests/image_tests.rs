use final_project::pbm::{push_decimal, render_pbm};
use final_project::pgm::{parse_pgm, whole_pixels, PgmError, PixelField};
use final_project::text::{float_literal, parse_unsigned, split_whitespace};
use final_project::threshold::{partition, sample_stats, segmentation, sum_values, SAMPLE_SIZE};

fn lines(text: &[&str]) -> Vec<Vec<u8>> {
    text.iter().map(|l| l.as_bytes().to_vec()).collect()
}

fn bytes(s: &str) -> Vec<u8> {
    s.as_bytes().to_vec()
}

#[test]
fn split_whitespace_ascii_and_unicode_spaces() {
    let s = b"  12\t 7 \xC2\xA0 9\r".to_vec();
    let toks = split_whitespace(&s);
    assert_eq!(toks, vec![bytes("12"), bytes("7"), bytes("9")]);
    let s = "a\u{3000}b\u{2003}c".as_bytes().to_vec();
    assert_eq!(split_whitespace(&s), vec![bytes("a"), bytes("b"), bytes("c")]);
    assert!(split_whitespace(&bytes("   ")).is_empty());
    assert!(split_whitespace(&Vec::new()).is_empty());
}

#[test]
fn split_whitespace_agrees_with_std() {
    let samples = ["1 2  3", " x\ty\nz ", "\u{85}p\u{a0}q\u{1680}r\u{2028}s\u{202f}t\u{205f}u", "é ü"];
    for s in samples.iter() {
        let ours = split_whitespace(&s.as_bytes().to_vec());
        let std: Vec<Vec<u8>> = s.split_whitespace().map(|t| t.as_bytes().to_vec()).collect();
        assert_eq!(ours, std, "on {:?}", s);
    }
}

#[test]
fn unsigned_literals() {
    let max = u32::MAX as u64;
    assert_eq!(parse_unsigned(&bytes("42"), max), Some(42));
    assert_eq!(parse_unsigned(&bytes("+42"), max), Some(42));
    assert_eq!(parse_unsigned(&bytes("007"), max), Some(7));
    assert_eq!(parse_unsigned(&bytes("4294967295"), max), Some(4294967295));
    assert_eq!(parse_unsigned(&bytes("4294967296"), max), None);
    assert_eq!(parse_unsigned(&bytes("-1"), max), None);
    assert_eq!(parse_unsigned(&bytes(""), max), None);
    assert_eq!(parse_unsigned(&bytes("+"), max), None);
    assert_eq!(parse_unsigned(&bytes("1x"), max), None);
    assert_eq!(parse_unsigned(&bytes("12"), 9), None);
}

#[test]
fn unsigned_literals_agree_with_std() {
    let samples = ["0", "+0", "65535", "4294967295", "4294967296", "-0", "+", "", " 1", "1e3", "99999999999999999999"];
    for s in samples.iter() {
        let ours = parse_unsigned(&bytes(s), u32::MAX as u64).map(|v| v as u32);
        assert_eq!(ours, s.parse::<u32>().ok(), "on {:?}", s);
    }
}

#[test]
fn float_literals() {
    for s in ["255", "2.5e2", "-inf", "NaN", "+Infinity", "1.", ".5", "1e+3", "1E-3", "007"].iter() {
        assert!(float_literal(&bytes(s)), "{:?} should be accepted", s);
    }
    for s in ["", ".", "1e", "abc", "1.2.3", "255 ", "+", "e5", "in", "1e1.5", "--1"].iter() {
        assert!(!float_literal(&bytes(s)), "{:?} should be refused", s);
    }
}

#[test]
fn float_literals_agree_with_std() {
    let samples = ["255", "-0.0", "inf", "INF", "nan", "infinity", "infinit", ".e1", "1.e1", "0x10", "1_0", " 1", "+.5", "5.", "e", "1e-", "1e+07"];
    for s in samples.iter() {
        assert_eq!(float_literal(&bytes(s)), s.parse::<f64>().is_ok(), "on {:?}", s);
    }
}

#[test]
fn parse_pgm_reads_header_comments_and_pixels() {
    let ls = lines(&["P2", "# made by hand", "# second", "3 2", "255", "1 2 3", "4  5", "6"]);
    let img = parse_pgm(&ls).unwrap();
    assert_eq!(img.width, 3);
    assert_eq!(img.height, 2);
    let whole: Vec<PixelField> = (1..=6).map(PixelField::Whole).collect();
    assert_eq!(img.pixels, whole);
    assert_eq!(whole_pixels(&img.pixels), Some(vec![1, 2, 3, 4, 5, 6]));
    assert_eq!(img.comments, vec![bytes("# made by hand"), bytes("# second")]);
}

#[test]
fn parse_pgm_ignores_extra_size_fields_and_pixel_count() {
    let ls = lines(&["P2", "2 2 junk", "15.0", "7"]);
    let img = parse_pgm(&ls).unwrap();
    assert_eq!((img.width, img.height), (2, 2));
    assert_eq!(img.pixels, vec![PixelField::Whole(7)]);
    assert!(img.comments.is_empty());
}

#[test]
fn parse_pgm_errors() {
    assert_eq!(parse_pgm(&lines(&[])).err(), Some(PgmError::Empty));
    assert_eq!(parse_pgm(&lines(&["P5", "1 1", "255", "0"])).err(), Some(PgmError::NotAsciiPgm));
    assert_eq!(parse_pgm(&lines(&["P2 ", "1 1", "255", "0"])).err(), Some(PgmError::NotAsciiPgm));
    assert_eq!(parse_pgm(&lines(&["P2", "# only comments"])).err(), Some(PgmError::MissingSize));
    assert_eq!(parse_pgm(&lines(&["P2", "   ", "255"])).err(), Some(PgmError::MissingSizeField));
    assert_eq!(parse_pgm(&lines(&["P2", "4", "255"])).err(), Some(PgmError::MissingSizeField));
    assert_eq!(parse_pgm(&lines(&["P2", "x", "255"])).err(), Some(PgmError::BadWidth));
    assert_eq!(parse_pgm(&lines(&["P2", "4 -2", "255"])).err(), Some(PgmError::BadHeight));
    assert_eq!(parse_pgm(&lines(&["P2", "4 2"])).err(), Some(PgmError::MissingMaxValue));
    assert_eq!(parse_pgm(&lines(&["P2", "4 2", "max"])).err(), Some(PgmError::BadMaxValue));
    assert_eq!(parse_pgm(&lines(&["P2", "1 2", "255", "3 x"])).err(), Some(PgmError::BadPixel));
    assert_eq!(parse_pgm(&lines(&["P2", "1 2", "255", "3 1e"])).err(), Some(PgmError::BadPixel));
}

#[test]
fn parse_pgm_keeps_non_whole_numbers_as_text() {
    let ls = lines(&["P2", "2 3", "255", "2.5 1e3 -1", "-0 4294967296 +7", "inf"]);
    let img = parse_pgm(&ls).unwrap();
    assert_eq!(
        img.pixels,
        vec![
            PixelField::Real(bytes("2.5")),
            PixelField::Real(bytes("1e3")),
            PixelField::Real(bytes("-1")),
            PixelField::Real(bytes("-0")),
            PixelField::Real(bytes("4294967296")),
            PixelField::Whole(7),
            PixelField::Real(bytes("inf")),
        ]
    );
    assert_eq!(whole_pixels(&img.pixels), None);
}

#[test]
fn pixel_fields_accepted_exactly_when_std_reads_a_number() {
    let samples = ["0", "12", "2.5", ".5", "1.", "-3", "+4", "NaN", "1e9", "4294967295", "4294967296", "x1", "1..2", "0x1"];
    for s in samples.iter() {
        let ls = lines(&["P2", "1 1", "255", s]);
        let got = parse_pgm(&ls);
        assert_eq!(got.is_ok(), s.parse::<f64>().is_ok(), "on {:?}", s);
        if let Ok(img) = got {
            match &img.pixels[0] {
                PixelField::Whole(v) => assert_eq!(Some(*v), s.parse::<u32>().ok()),
                PixelField::Real(text) => {
                    assert_eq!(text, &bytes(s));
                    assert!(s.parse::<u32>().is_err());
                }
            }
        }
    }
}

#[test]
fn decimal_text() {
    let mut out = bytes("n=");
    push_decimal(&mut out, 0);
    push_decimal(&mut out, 1203);
    assert_eq!(out, bytes("n=01203"));
    let mut big = Vec::new();
    push_decimal(&mut big, usize::MAX);
    assert_eq!(big, usize::MAX.to_string().into_bytes());
}

#[test]
fn render_pbm_layout() {
    let text = render_pbm(3, 2, &vec![1, 0, 1, 0, 0, 7], &vec![bytes("# c")]);
    assert_eq!(text, bytes("P1\n# c\n3 2\n1 0 1 \n0 0 1 \n"));
    let text = render_pbm(2, 3, &vec![1, 1, 0], &vec![]);
    assert_eq!(text, bytes("P1\n2 3\n1 1 \n0 "));
    let text = render_pbm(0, 0, &vec![], &vec![]);
    assert_eq!(text, bytes("P1\n0 0\n"));
}

#[test]
fn partition_splits_at_cutoff() {
    let px = vec![1, 5, 10, 3];
    let p = partition(&px, 5);
    assert_eq!((p.below_count, p.below_sum), (2, 4));
    assert_eq!((p.above_count, p.above_sum), (2, 15));
    let p = partition(&px, 0);
    assert_eq!((p.below_count, p.below_sum, p.above_count, p.above_sum), (0, 0, 4, 19));
    let p = partition(&px, u64::MAX);
    assert_eq!((p.below_count, p.below_sum, p.above_count, p.above_sum), (4, 19, 0, 0));
}

#[test]
fn partition_is_complete_on_values() {
    let px = vec![9, 0, 4294967295, 17, 17, 2];
    for cutoff in [0u64, 1, 17, 18, 4294967295, 4294967296].iter() {
        let p = partition(&px, *cutoff);
        assert_eq!(p.below_count + p.above_count, px.len());
        assert_eq!(p.below_sum + p.above_sum, sum_values(&px));
    }
}

#[test]
fn segmentation_marks_pixels_below_cutoff() {
    let px = vec![1, 5, 10, 3];
    assert_eq!(segmentation(&px, 5), vec![1, 0, 0, 1]);
    assert_eq!(segmentation(&px, 0), vec![0, 0, 0, 0]);
    assert_eq!(segmentation(&px, 11), vec![1, 1, 1, 1]);
    assert!(segmentation(&vec![], 3).is_empty());
}

#[test]
fn segmentation_ones_match_lower_group() {
    let px = vec![200, 13, 90, 91, 0, 255, 128];
    for cutoff in [0u64, 91, 128, 129, 256].iter() {
        let ones = segmentation(&px, *cutoff).iter().filter(|b| **b == 1).count();
        assert_eq!(ones, partition(&px, *cutoff).below_count);
    }
}

#[test]
fn segmentation_matches_real_threshold() {
    // A pixel lies below a real threshold exactly when it lies below its ceiling.
    let px: Vec<u32> = (0..20).collect();
    for t in [7.0f64, 7.25, 0.5, 19.999].iter() {
        let expected: Vec<u8> = px.iter().map(|p| if (*p as f64) < *t { 1 } else { 0 }).collect();
        assert_eq!(segmentation(&px, t.ceil() as u64), expected);
    }
}

#[test]
fn sum_of_values() {
    assert_eq!(sum_values(&vec![]), 0);
    assert_eq!(sum_values(&vec![4294967295, 4294967295, 2]), 8589934592);
}

#[test]
fn sample_stats_sizes_and_sums() {
    let same = vec![7u32; 25];
    let s = sample_stats(&same);
    assert_eq!(s.count, SAMPLE_SIZE);
    assert_eq!(s.sum, 70);
    let few = vec![1u32, 2, 3];
    let s = sample_stats(&few);
    assert_eq!((s.count, s.sum), (3, 6));
    let s = sample_stats(&vec![]);
    assert_eq!((s.count, s.sum), (0, 0));
}

#[test]
fn sample_stats_draws_distinct_positions() {
    // Ten distinct powers of two: the sum identifies which were drawn.
    let px: Vec<u32> = (0..12).map(|i| 1u32 << i).collect();
    for _ in 0..20 {
        let s = sample_stats(&px);
        assert_eq!(s.count, 10);
        assert_eq!((s.sum as u32).count_ones(), 10);
        assert!(s.sum < (1 << 12));
    }
}
