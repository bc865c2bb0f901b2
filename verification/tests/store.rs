use std::borrow::Cow;
use zim::chunks::{chunk_base, chunk_suffixes, Opening, Step};
use zim::errors::Error;
use zim::store::Store;

#[test]
fn chunk_suffixes_are_ordered_and_complete() {
    let suffixes: Vec<String> = chunk_suffixes();

    assert_eq!(suffixes.len(), 26 * 26);
    assert_eq!(suffixes[0], "aa");
    assert_eq!(suffixes[1], "ab");
    assert_eq!(suffixes[26], "ba");
    assert_eq!(suffixes[26 * 26 - 1], "zz");
    for pair in suffixes.windows(2) {
        assert!(pair[0] < pair[1]);
    }
}

#[test]
fn chunk_base_strips_a_first_chunk_name() {
    // Both spellings must resolve to the same set of chunks.
    assert_eq!(chunk_base("foo.zimaa"), "foo.zim");
    assert_eq!(chunk_base("foo.zim"), "foo.zim");
}

#[test]
fn chunk_base_leaves_other_names_alone() {
    assert_eq!(chunk_base("foo.zimab"), "foo.zimab");
    assert_eq!(chunk_base(".zimaa"), ".zim");
    assert_eq!(chunk_base("zimaa"), "zimaa");
    assert_eq!(chunk_base("ж.zimaa"), "ж.zim");
    assert_eq!(chunk_base(""), "");
}

/// Opens `path` on a disk that holds these files, and says which of them were mapped.
fn find(path: &str, files: &[&str]) -> Option<Vec<String>> {
    let base = chunk_base(path);
    let mut opening = Store::open(path);
    let mut mapped = Vec::new();
    loop {
        let name = match opening.step() {
            Step::Whole => path.to_string(),
            Step::Chunk(suffix) => format!("{base}{suffix}"),
            Step::Assemble => return Some(mapped),
            Step::Missing => return None,
        };
        let found = files.contains(&name.as_str());
        opening.answer(found);
        if found {
            mapped.push(name);
        }
    }
}

#[test]
fn opening_prefers_the_whole_archive() {
    let all = ["a.zim", "a.zimaa", "a.zimab"];
    assert_eq!(find("a.zim", &all), Some(vec!["a.zim".to_string()]));
    assert_eq!(
        find("a.zim", &all[1..]),
        Some(vec!["a.zimaa".to_string(), "a.zimab".to_string()])
    );
}

#[test]
fn opening_stops_at_a_gap() {
    assert_eq!(
        find("a.zim", &["a.zimaa", "a.zimac"]),
        Some(vec!["a.zimaa".to_string()])
    );
    assert_eq!(find("a.zim", &["a.zimab", "a.zimac"]), None);
    assert_eq!(find("a.zim", &[]), None);
}

#[test]
fn opening_takes_a_first_chunk_name_for_the_chunks() {
    assert_eq!(
        find("a.zimaa", &["a.zim", "a.zimaa", "a.zimab"]),
        Some(vec!["a.zimaa".to_string(), "a.zimab".to_string()])
    );
    assert_eq!(find("a.zimaa", &["a.zim"]), None);
}

#[test]
fn opening_ends_after_the_last_suffix() {
    let names: Vec<String> = chunk_suffixes()
        .iter()
        .map(|suffix| format!("a.zim{suffix}"))
        .collect();
    let files: Vec<&str> = names.iter().map(|name| name.as_str()).collect();
    assert_eq!(find("a.zim", &files), Some(names.clone()));

    let mut over = Opening::start(false);
    over.answer(true);
    assert_eq!(over, Opening::OneFile);
    over.answer(false);
    assert_eq!(over, Opening::OneFile);
}

#[test]
fn empty_archives_are_refused() {
    assert!(matches!(
        Store::from_maps(vec![]),
        Err(Error::InvalidHeader("archive is empty"))
    ));
    assert!(matches!(
        Store::from_maps(vec![&b""[..], &b""[..]]),
        Err(Error::InvalidHeader("archive is empty"))
    ));
}

fn split<'a>(whole: &'a [u8], cuts: &[usize]) -> Store<'a> {
    let mut maps = Vec::new();
    let mut at = 0;
    for &cut in cuts {
        maps.push(&whole[at..cut]);
        at = cut;
    }
    maps.push(&whole[at..]);
    Store::from_maps(maps).unwrap()
}

#[test]
fn slices_are_the_same_however_the_archive_is_split() {
    let whole: Vec<u8> = (0u8..50).collect();
    for cuts in [vec![], vec![1], vec![7, 7, 30], vec![10, 20, 49], vec![0, 50]] {
        let store = split(&whole, &cuts);
        assert_eq!(store.len(), 50);
        assert!(!store.is_empty());

        for start in 0..=52u64 {
            for len in 0..=52u64 {
                let got = store.slice(start, len);
                if start < 50 && start + len <= 50 {
                    let got = got.unwrap();
                    assert_eq!(&got[..], &whole[start as usize..(start + len) as usize]);
                } else {
                    assert!(matches!(got, Err(Error::OutOfBounds)));
                }
            }
        }
        assert!(matches!(
            store.slice(1, u64::MAX),
            Err(Error::OutOfBounds)
        ));
    }
}

#[test]
fn slices_are_borrowed_within_a_chunk_and_copied_across() {
    let whole: Vec<u8> = (0u8..20).collect();
    let store = split(&whole, &[8]);
    assert!(matches!(store.slice(0, 8), Ok(Cow::Borrowed(_))));
    assert!(matches!(store.slice(8, 12), Ok(Cow::Borrowed(_))));
    assert!(matches!(store.slice(7, 2), Ok(Cow::Owned(_))));
}

#[test]
fn slice_upto_stops_at_the_end() {
    let whole: Vec<u8> = (0u8..20).collect();
    let store = split(&whole, &[8]);
    assert_eq!(&store.slice_upto(5, 4).unwrap()[..], &whole[5..9]);
    assert_eq!(&store.slice_upto(15, 100).unwrap()[..], &whole[15..]);
    assert!(matches!(store.slice_upto(20, 1), Err(Error::OutOfBounds)));
    assert!(matches!(store.slice_upto(21, 1), Err(Error::OutOfBounds)));
}

#[test]
fn prefix_chunks_cover_the_prefix() {
    let whole: Vec<u8> = (0u8..20).collect();
    let store = split(&whole, &[8, 12]);
    assert_eq!(store.prefix_chunks(0).len(), 0);
    assert_eq!(store.prefix_chunks(8), vec![&whole[..8]]);
    assert_eq!(store.prefix_chunks(9), vec![&whole[..8], &whole[8..9]]);
    assert_eq!(store.prefix_chunks(99).concat(), whole);
}

#[test]
fn readers_cross_chunks() {
    let whole: Vec<u8> = (0u8..20).collect();
    let store = split(&whole, &[8, 12]);
    let mut reader = store.reader(5, 18);
    let mut buf = [0u8; 4];
    let mut out = Vec::new();
    let mut sizes = Vec::new();
    loop {
        let n = reader.read(&mut buf).unwrap();
        if n == 0 {
            break;
        }
        sizes.push(n);
        out.extend_from_slice(&buf[..n]);
    }
    assert_eq!(out, &whole[5..18]);
    // one part per call
    assert_eq!(sizes, vec![3, 4, 4, 2]);
    assert_eq!(reader.read(&mut []).unwrap(), 0);
    assert_eq!(store.reader(19, 99).read(&mut buf).unwrap(), 1);
    assert_eq!(store.reader(25, 99).read(&mut buf).unwrap(), 0);
}

#[test]
fn zero_bytes_are_found_across_chunks() {
    let whole = [1u8, 2, 0, 3, 4, 5, 0, 6];
    let store = split(&whole, &[3, 5]);
    assert_eq!(store.zero_from(0), Some(2));
    assert_eq!(store.zero_from(2), Some(2));
    assert_eq!(store.zero_from(3), Some(6));
    assert_eq!(store.zero_from(7), None);
    assert_eq!(store.zero_from(9), None);
}
