//! Reading and editing the text of a buffer.

use std::ops::Range;

use rand::{Rng, SeedableRng, StdRng};
use xray::buffer::Buffer;
use xray::error::{Error, MemoError};
use xray::point::Point;

struct RandomCharIter<T: Rng>(T);

impl<T: Rng> Iterator for RandomCharIter<T> {
    type Item = char;

    fn next(&mut self) -> Option<Self::Item> {
        if self.0.gen_weighted_bool(5) {
            Some('\n')
        } else {
            Some(self.0.gen_range(b'a', b'z' + 1).into())
        }
    }
}

fn basic() -> Buffer {
    Buffer::new(0, Vec::new())
}

#[test]
fn test_edit() -> Result<(), Error> {
    let mut buffer = basic();
    buffer.edit(vec![0..0], "abc")?;
    assert_eq!(buffer.to_string(), "abc");
    buffer.edit(vec![3..3], "def")?;
    assert_eq!(buffer.to_string(), "abcdef");
    buffer.edit(vec![0..0], "ghi")?;
    assert_eq!(buffer.to_string(), "ghiabcdef");
    buffer.edit(vec![5..5], "jkl")?;
    assert_eq!(buffer.to_string(), "ghiabjklcdef");
    buffer.edit(vec![6..7], "")?;
    assert_eq!(buffer.to_string(), "ghiabjlcdef");
    buffer.edit(vec![4..9], "mno")?;
    assert_eq!(buffer.to_string(), "ghiamnoef");

    Ok(())
}

#[test]
fn test_random_edits() -> Result<(), Error> {
    for seed in 0..100 {
        println!("{:?}", seed);
        let mut rng = StdRng::from_seed(&[seed]);

        let mut buffer = basic();
        let mut reference_string = String::new();

        for _i in 0..10 {
            let mut old_ranges: Vec<Range<usize>> = Vec::new();
            for _ in 0..5 {
                let last_end = old_ranges.last().map_or(0, |last_range| last_range.end + 1);
                if last_end > buffer.len()? {
                    break;
                }
                let end = rng.gen_range::<usize>(last_end, buffer.len()? + 1);
                let start = rng.gen_range::<usize>(last_end, end + 1);
                old_ranges.push(start..end);
            }
            let new_text = RandomCharIter(rng)
                .take(rng.gen_range(0, 10))
                .collect::<String>();

            let string = String::from(new_text);
            buffer.edit(old_ranges.clone(), string.as_str())?;
            for old_range in old_ranges.iter().rev() {
                reference_string = [
                    &reference_string[0..old_range.start],
                    string.as_str(),
                    &reference_string[old_range.end..],
                ]
                .concat();
            }
            assert_eq!(buffer.to_string(), reference_string);
        }
    }

    Ok(())
}

#[test]
fn test_len_for_row() -> Result<(), Error> {
    let mut buffer = basic();
    buffer.edit(vec![0..0], "abcd\nefg\nhij")?;
    buffer.edit(vec![12..12], "kl\nmno")?;
    buffer.edit(vec![18..18], "\npqrs\n")?;
    buffer.edit(vec![18..21], "\nPQ")?;

    assert_eq!(buffer.len_for_row(0), Ok(4));
    assert_eq!(buffer.len_for_row(1), Ok(3));
    assert_eq!(buffer.len_for_row(2), Ok(5));
    assert_eq!(buffer.len_for_row(3), Ok(3));
    assert_eq!(buffer.len_for_row(4), Ok(4));
    assert_eq!(buffer.len_for_row(5), Ok(0));
    assert_eq!(
        buffer.len_for_row(6),
        Err(Error::from(MemoError::OffsetOutOfRange))
    );

    Ok(())
}

#[test]
fn test_longest_row() -> Result<(), Error> {
    let mut buffer = basic();
    assert_eq!(buffer.longest_row(), Ok(0));
    buffer.edit(vec![0..0], "abcd\nefg\nhij")?;
    assert_eq!(buffer.longest_row(), Ok(0));
    buffer.edit(vec![12..12], "kl\nmno")?;
    assert_eq!(buffer.longest_row(), Ok(2));
    buffer.edit(vec![18..18], "\npqrs")?;
    assert_eq!(buffer.longest_row(), Ok(2));
    buffer.edit(vec![10..12], "")?;
    assert_eq!(buffer.longest_row(), Ok(0));
    buffer.edit(vec![24..24], "tuv")?;
    assert_eq!(buffer.longest_row(), Ok(4));

    Ok(())
}

#[test]
fn iter_at_point() -> Result<(), Error> {
    let mut buffer = basic();
    buffer.edit(vec![0..0], "abcd\nefgh\nij")?;
    buffer.edit(vec![12..12], "kl\nmno")?;
    buffer.edit(vec![18..18], "\npqrs")?;
    buffer.edit(vec![18..21], "\nPQ")?;

    let iter = buffer.iter_at_point(Point::new(0, 0))?;
    assert_eq!(
        String::from_utf16_lossy(&iter),
        "abcd\nefgh\nijkl\nmno\nPQrs"
    );

    let iter = buffer.iter_at_point(Point::new(1, 0))?;
    assert_eq!(
        String::from_utf16_lossy(&iter),
        "efgh\nijkl\nmno\nPQrs"
    );

    let iter = buffer.iter_at_point(Point::new(2, 0))?;
    assert_eq!(
        String::from_utf16_lossy(&iter),
        "ijkl\nmno\nPQrs"
    );

    let iter = buffer.iter_at_point(Point::new(3, 0))?;
    assert_eq!(
        String::from_utf16_lossy(&iter),
        "mno\nPQrs"
    );

    let iter = buffer.iter_at_point(Point::new(4, 0))?;
    assert_eq!(
        String::from_utf16_lossy(&iter),
        "PQrs"
    );

    let iter = buffer.iter_at_point(Point::new(5, 0))?;
    assert_eq!(String::from_utf16_lossy(&iter), "");

    // Regression test:
    let mut buffer = basic();
    buffer.edit(vec![0..0], "[workspace]\nmembers = [\n    \"xray_core\",\n    \"xray_server\",\n    \"xray_cli\",\n    \"xray_wasm\",\n]\n")?;
    buffer.edit(vec![60..60], "\n")?;

    let iter = buffer.iter_at_point(Point::new(6, 0))?;
    assert_eq!(
        String::from_utf16_lossy(&iter),
        "    \"xray_wasm\",\n]\n"
    );

    Ok(())
}

#[test]
fn backward_iter_at_point() -> Result<(), Error> {
    let mut buffer = basic();
    buffer.edit(vec![0..0], "abcd\nefgh\nij")?;
    buffer.edit(vec![12..12], "kl\nmno")?;
    buffer.edit(vec![18..18], "\npqrs")?;
    buffer.edit(vec![18..21], "\nPQ")?;

    let iter = buffer.backward_iter_at_point(Point::new(0, 0))?;
    assert_eq!(String::from_utf16_lossy(&iter), "");

    let iter = buffer.backward_iter_at_point(Point::new(0, 3))?;
    assert_eq!(String::from_utf16_lossy(&iter), "cba");

    let iter = buffer.backward_iter_at_point(Point::new(1, 4))?;
    assert_eq!(
        String::from_utf16_lossy(&iter),
        "hgfe\ndcba"
    );

    let iter = buffer.backward_iter_at_point(Point::new(3, 2))?;
    assert_eq!(
        String::from_utf16_lossy(&iter),
        "nm\nlkji\nhgfe\ndcba"
    );

    let iter = buffer.backward_iter_at_point(Point::new(4, 4))?;
    assert_eq!(
        String::from_utf16_lossy(&iter),
        "srQP\nonm\nlkji\nhgfe\ndcba"
    );

    let iter = buffer.backward_iter_at_point(Point::new(5, 0))?;
    assert_eq!(
        String::from_utf16_lossy(&iter),
        "srQP\nonm\nlkji\nhgfe\ndcba"
    );

    Ok(())
}

#[test]
fn test_clip_point() -> Result<(), Error> {
    let mut buffer = basic();
    buffer.edit(vec![0..0], "abcdefghi")?;

    let point = buffer.clip_point(Point::new(0, 0))?;
    assert_eq!(point.row, 0);
    assert_eq!(point.column, 0);

    let point = buffer.clip_point(Point::new(0, 2))?;
    assert_eq!(point.row, 0);
    assert_eq!(point.column, 2);

    let point = buffer.clip_point(Point::new(1, 12))?;
    assert_eq!(point.row, 0);
    assert_eq!(point.column, 9);

    Ok(())
}

#[test]
fn test_text() -> Result<(), Error> {
    let mut buffer = basic();
    buffer.edit(vec![0..0], "abcdefghi")?;
    buffer.edit(vec![3..6], "DEF")?;

    assert_eq!(buffer.to_string(), String::from("abcDEFghi"));
    assert_eq!(
        String::from_utf16_lossy(buffer.text()?.as_slice()),
        String::from("abcDEFghi")
    );

    buffer.edit(vec![0..1], "A")?;
    buffer.edit(vec![8..9], "I")?;
    assert_eq!(buffer.to_string(), String::from("AbcDEFghI"));
    assert_eq!(
        String::from_utf16_lossy(buffer.text()?.as_slice()),
        String::from("AbcDEFghI")
    );

    Ok(())
}
