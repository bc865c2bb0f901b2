//! Tests against whole archives, which are put together here the way a writer would.

use md5::Digest;
use std::io::Read;
use zim::chunks::{chunk_base, chunk_suffixes, Step};
use zim::errors::Fault;
use zim::extract::Extracted;
use zim::{Compression, DirectoryEntry, Error, MimeType, Namespace, Result, Store, Target, Zim};

/// What an entry of a test archive is.
#[derive(Clone)]
enum Body {
    /// Contents of this type, in this cluster.
    Data(&'static str, Vec<u8>, usize),
    /// All entries, in title order.
    ListingV0(usize),
    /// The articles, in title order.
    ListingV1(usize),
    /// The entry at this full path.
    Redirect(u8, String),
    /// No data of its own.
    LinkTarget,
}

#[derive(Clone)]
struct Item {
    namespace: u8,
    path: String,
    title: String,
    body: Body,
}

fn data(namespace: u8, path: &str, mime: &'static str, raw: &[u8], cluster: usize) -> Item {
    Item {
        namespace,
        path: path.to_string(),
        title: String::new(),
        body: Body::Data(mime, raw.to_vec(), cluster),
    }
}

fn redirect(namespace: u8, path: &str, to: u8, target: &str) -> Item {
    Item {
        namespace,
        path: path.to_string(),
        title: String::new(),
        body: Body::Redirect(to, target.to_string()),
    }
}

/// What the title pointer in the header leads to.
#[derive(Clone, Copy, PartialEq)]
enum TitlePointer {
    Absent,
    OwnList,
    ListingV0,
}

#[derive(Clone)]
struct Spec {
    version: (u16, u16),
    items: Vec<Item>,
    /// The compression number of each cluster, with the extension bit.
    clusters: Vec<u8>,
    title_pointer: TitlePointer,
    main_page: Option<(u8, &'static str)>,
}

fn compress(details: u8, raw: &[u8]) -> Vec<u8> {
    match details & 0x0f {
        4 => {
            let mut out = Vec::new();
            xz2::read::XzEncoder::new(raw, 1)
                .read_to_end(&mut out)
                .unwrap();
            out
        }
        5 => zstd::stream::encode_all(raw, 1).unwrap(),
        _ => raw.to_vec(),
    }
}

/// Writes the checksum over everything in front of the last 16 bytes.
fn seal(raw: &mut [u8]) {
    let end = raw.len() - 16;
    let digest: [u8; 16] = md5::Md5::digest(&raw[..end]).into();
    raw[end..].copy_from_slice(&digest);
}

fn build(spec: &Spec) -> Vec<u8> {
    let mut items = spec.items.clone();
    items.sort_by(|a, b| (a.namespace, a.path.as_bytes()).cmp(&(b.namespace, b.path.as_bytes())));
    let find = |namespace: u8, path: &str| -> u32 {
        items
            .binary_search_by(|item| {
                (item.namespace, item.path.as_bytes()).cmp(&(namespace, path.as_bytes()))
            })
            .unwrap_or_else(|_| panic!("no entry {path}")) as u32
    };
    let title = |idx: u32| -> &str {
        let item = &items[idx as usize];
        if item.title.is_empty() {
            &item.path
        } else {
            &item.title
        }
    };

    let mut all: Vec<u32> = (0..items.len() as u32).collect();
    all.sort_by_key(|idx| title(*idx).to_string());
    let articles: Vec<u32> = all
        .iter()
        .copied()
        .filter(|idx| {
            let item = &items[*idx as usize];
            item.namespace == b'C' && matches!(item.body, Body::Data("text/html", _, _))
        })
        .collect();
    let numbers = |list: &[u32]| -> Vec<u8> { list.iter().flat_map(|n| n.to_le_bytes()).collect() };

    let mut mimes: Vec<&str> = Vec::new();
    let mut blobs: Vec<Vec<Vec<u8>>> = vec![Vec::new(); spec.clusters.len()];
    let mut dirents: Vec<Vec<u8>> = Vec::new();
    let mut v0_place = None;
    for item in &items {
        let mut raw = Vec::new();
        let (mime, blob, cluster) = match &item.body {
            Body::Data(mime, blob, cluster) => (*mime, blob.clone(), *cluster),
            Body::ListingV0(cluster) => {
                v0_place = Some((*cluster, blobs[*cluster].len()));
                ("application/octet-stream+zimlisting", numbers(&all), *cluster)
            }
            Body::ListingV1(cluster) => (
                "application/octet-stream+zimlisting",
                numbers(&articles),
                *cluster,
            ),
            Body::Redirect(_, _) | Body::LinkTarget => ("", Vec::new(), 0),
        };
        match &item.body {
            Body::Redirect(to, target) => {
                raw.extend_from_slice(&0xffffu16.to_le_bytes());
                raw.extend_from_slice(&[0, item.namespace, 0, 0, 0, 0]);
                raw.extend_from_slice(&find(*to, target).to_le_bytes());
            }
            Body::LinkTarget => {
                raw.extend_from_slice(&0xfffeu16.to_le_bytes());
                raw.extend_from_slice(&[0, item.namespace, 0, 0, 0, 0]);
            }
            _ => {
                let id = match mimes.iter().position(|known| *known == mime) {
                    Some(id) => id,
                    None => {
                        mimes.push(mime);
                        mimes.len() - 1
                    }
                };
                raw.extend_from_slice(&(id as u16).to_le_bytes());
                raw.extend_from_slice(&[0, item.namespace, 0, 0, 0, 0]);
                raw.extend_from_slice(&(cluster as u32).to_le_bytes());
                raw.extend_from_slice(&(blobs[cluster].len() as u32).to_le_bytes());
                blobs[cluster].push(blob);
            }
        }
        raw.extend_from_slice(item.path.as_bytes());
        raw.push(0);
        raw.extend_from_slice(item.title.as_bytes());
        raw.push(0);
        dirents.push(raw);
    }

    let mut raw = vec![0u8; 80];
    for mime in &mimes {
        raw.extend_from_slice(mime.as_bytes());
        raw.push(0);
    }
    raw.push(0);

    let mut offsets = Vec::new();
    for dirent in &dirents {
        offsets.push(raw.len() as u64);
        raw.extend_from_slice(dirent);
    }
    let url_ptr_pos = raw.len() as u64;
    for offset in &offsets {
        raw.extend_from_slice(&offset.to_le_bytes());
    }
    let own_list_pos = raw.len() as u64;
    if spec.title_pointer == TitlePointer::OwnList {
        raw.extend_from_slice(&numbers(&all));
    }

    let cluster_ptr_pos = raw.len() as u64;
    raw.extend_from_slice(&vec![0u8; 8 * spec.clusters.len()]);
    let mut title_ptr_pos = match spec.title_pointer {
        TitlePointer::OwnList => own_list_pos,
        _ => u64::MAX,
    };
    for (idx, details) in spec.clusters.iter().enumerate() {
        let width = if details & 0x10 == 0 { 4 } else { 8 };
        let mut offset = width * (blobs[idx].len() + 1);
        let mut content = Vec::new();
        let mut starts = Vec::new();
        for end in 0..=blobs[idx].len() {
            starts.push(offset);
            if width == 4 {
                content.extend_from_slice(&(offset as u32).to_le_bytes());
            } else {
                content.extend_from_slice(&(offset as u64).to_le_bytes());
            }
            if end < blobs[idx].len() {
                offset += blobs[idx][end].len();
            }
        }
        for blob in &blobs[idx] {
            content.extend_from_slice(blob);
        }

        let at = raw.len();
        let ptr = cluster_ptr_pos as usize + 8 * idx;
        raw[ptr..ptr + 8].copy_from_slice(&(at as u64).to_le_bytes());
        if spec.title_pointer == TitlePointer::ListingV0 {
            if let Some((cluster, blob)) = v0_place {
                if cluster == idx {
                    title_ptr_pos = (at + 1 + starts[blob]) as u64;
                }
            }
        }
        raw.push(*details);
        raw.extend_from_slice(&compress(*details, &content));
    }

    let checksum_pos = raw.len() as u64;
    raw.extend_from_slice(&[0u8; 16]);
    let main_page = match spec.main_page {
        Some((namespace, path)) => find(namespace, path),
        None => u32::MAX,
    };
    raw[0..4].copy_from_slice(&72_173_914u32.to_le_bytes());
    raw[4..6].copy_from_slice(&spec.version.0.to_le_bytes());
    raw[6..8].copy_from_slice(&spec.version.1.to_le_bytes());
    for i in 0..16 {
        raw[8 + i] = 0xa0 + i as u8;
    }
    raw[24..28].copy_from_slice(&(items.len() as u32).to_le_bytes());
    raw[28..32].copy_from_slice(&(spec.clusters.len() as u32).to_le_bytes());
    raw[32..40].copy_from_slice(&url_ptr_pos.to_le_bytes());
    raw[40..48].copy_from_slice(&title_ptr_pos.to_le_bytes());
    raw[48..56].copy_from_slice(&cluster_ptr_pos.to_le_bytes());
    raw[56..64].copy_from_slice(&80u64.to_le_bytes());
    raw[64..68].copy_from_slice(&main_page.to_le_bytes());
    raw[68..72].copy_from_slice(&u32::MAX.to_le_bytes());
    raw[72..80].copy_from_slice(&checksum_pos.to_le_bytes());
    seal(&mut raw);
    raw
}

const PNG: &[u8] = b"\x89PNG\r\n\x1a\nnot much of a picture";
const HTML: &str = "text/html";
const TEXT: &str = "text/plain";

/// Format version 5.0: the old namespace scheme, and LZMA2 clusters.
fn v50() -> Vec<u8> {
    let mut items = vec![
        data(b'-', "favicon", "image/png", PNG, 1),
        data(b'-', "style.css", "text/css", b"body {}", 0),
        data(b'A', "main.html", HTML, b"<p>main</p>", 0),
        data(b'A', "other.html", HTML, b"<p>other</p>", 0),
        redirect(b'A', "start", b'A', "main.html"),
        data(b'I', "favicon.png", "image/png", PNG, 1),
        data(b'X', "fulltext/xapian", "application/octet-stream+xapian", b"ft", 1),
    ];
    for key in [
        "Counter", "Creator", "Date", "Description", "Language", "Name", "Publisher", "Source",
        "Tags", "Title",
    ] {
        items.push(data(b'M', key, TEXT, key.as_bytes(), 0));
    }
    // the first blob that is written
    items[1] = data(b'-', "0lang", TEXT, b"=en", 0);
    build(&Spec {
        version: (5, 0),
        items,
        clusters: vec![4, 1],
        title_pointer: TitlePointer::OwnList,
        main_page: Some((b'A', "main.html")),
    })
}

/// Format version 5.0, multi-cluster: the only legacy-namespace archive with enough entries to
/// put a namespace boundary in the middle of a binary search.
fn v50_books() -> Vec<u8> {
    let mut items = Vec::new();
    for i in 0..50 {
        items.push(data(
            b'A',
            &format!("старонка {i}.html"),
            HTML,
            format!("<p>{i}</p>").as_bytes(),
            i % 3,
        ));
        items.push(data(b'I', &format!("m/{i}.png"), "image/png", PNG, i % 3));
    }
    for i in 0..13 {
        items.push(data(b'M', &format!("Key {i}"), TEXT, b"value", 2));
    }
    for i in 0..6 {
        items.push(redirect(b'A', &format!("r{i}"), b'A', "старонка 7.html"));
    }
    build(&Spec {
        version: (5, 0),
        items,
        clusters: vec![4, 4, 1],
        title_pointer: TitlePointer::OwnList,
        main_page: Some((b'A', "старонка 0.html")),
    })
}

fn metadata_items(keys: &[&str]) -> Vec<Item> {
    keys.iter()
        .map(|key| data(b'M', key, TEXT, key.to_lowercase().as_bytes(), 0))
        .collect()
}

/// Format version 6.1: the new namespace scheme, still carrying a header title pointer.
fn v61_spec() -> Spec {
    let mut items = metadata_items(&[
        "Counter", "Creator", "Date", "Description", "Illustration_48x48@1", "Language", "Name",
        "Publisher", "Tags", "Title",
    ]);
    items.push(data(b'C', "favicon.png", "image/png", PNG, 1));
    items.push(data(b'C', "main.html", HTML, b"<p>main</p>", 0));
    items.push(redirect(b'W', "mainPage", b'C', "main.html"));
    for (path, body) in [
        ("listing/titleOrdered/v0", Body::ListingV0(1)),
        ("listing/titleOrdered/v1", Body::ListingV1(1)),
    ] {
        items.push(Item {
            namespace: b'X',
            path: path.to_string(),
            title: String::new(),
            body,
        });
    }
    items.push(data(b'X', "title/xapian", "application/octet-stream+xapian", b"title", 1));
    Spec {
        version: (6, 1),
        items,
        clusters: vec![5, 1],
        title_pointer: TitlePointer::ListingV0,
        main_page: Some((b'C', "main.html")),
    }
}

fn v61() -> Vec<u8> {
    build(&v61_spec())
}

/// Format version 6.2, and by far the largest archive - 20k entries over 18 clusters.
fn v62() -> Vec<u8> {
    let mut items = vec![
        data(b'M', "Title", TEXT, b"Climate change by Wikipedia", 0),
        data(b'M', "Language", TEXT, b"eng", 0),
        data(b'M', "Creator", TEXT, b"Wikipedia", 0),
        data(b'M', "Date", TEXT, b"2024-06-01", 0),
        data(b'M', "Illustration_48x48@1", "image/png", PNG, 17),
        redirect(b'W', "mainPage", b'C', "index"),
        data(
            b'X',
            "fulltext/xapian",
            "application/octet-stream+xapian",
            &vec![7u8; 1_646_592],
            16,
        ),
        data(
            b'X',
            "title/xapian",
            "application/octet-stream+xapian",
            &vec![9u8; 827_392],
            16,
        ),
        data(b'C', "index", HTML, b"<p>index</p>", 0),
    ];
    for (path, body) in [
        ("listing/titleOrdered/v0", Body::ListingV0(17)),
        ("listing/titleOrdered/v1", Body::ListingV1(17)),
    ] {
        items.push(Item {
            namespace: b'X',
            path: path.to_string(),
            title: String::new(),
            body,
        });
    }
    for i in 0..3991 {
        items.push(data(
            b'C',
            &format!("article {i}"),
            HTML,
            format!("<p>{i}</p>").as_bytes(),
            i % 16,
        ));
    }
    for i in 0..16566 {
        let target = format!("article {}", i % 3991);
        items.push(redirect(b'C', &format!("redirect {i}"), b'C', &target));
    }
    let mut clusters = vec![5u8; 16];
    clusters.push(1);
    clusters.push(0x11);
    build(&Spec {
        version: (6, 2),
        items,
        clusters,
        title_pointer: TitlePointer::ListingV0,
        main_page: None,
    })
}

/// Format version 6.3: no header title pointer, and no v0 listing.
fn v63() -> Vec<u8> {
    let mut items = metadata_items(&[
        "Counter", "Creator", "Date", "Description", "Illustration_48x48@1", "Language", "Name",
        "Publisher", "Scraper", "Tags", "Title",
    ]);
    items.push(data(b'C', "favicon.png", "image/png", PNG, 1));
    items.push(data(b'C', "main.html", HTML, b"<p>main</p>", 0));
    items.push(redirect(b'W', "mainPage", b'C', "main.html"));
    items.push(Item {
        namespace: b'X',
        path: "listing/titleOrdered/v1".to_string(),
        title: String::new(),
        body: Body::ListingV1(1),
    });
    items.push(data(b'X', "title/xapian", "application/octet-stream+xapian", b"title", 1));
    build(&Spec {
        version: (6, 3),
        items,
        clusters: vec![5, 1],
        title_pointer: TitlePointer::Absent,
        main_page: None,
    })
}

/// Format version 6.3, with several clusters and non-ASCII paths.
fn v63_books() -> Vec<u8> {
    let mut items = metadata_items(&["Creator", "Date", "Language", "Title"]);
    let first = "Першая_старонка.html";
    items.push(data(b'C', first, HTML, b"<p>first</p>", 0));
    for i in 0..111 {
        let mut item = data(
            b'C',
            &format!("кніга {i}.html"),
            HTML,
            format!("<p>{}</p>", "ж".repeat(i)).as_bytes(),
            i % 2,
        );
        item.title = format!("Кніга {:03}", 111 - i);
        items.push(item);
    }
    items.push(Item {
        namespace: b'X',
        path: "listing/titleOrdered/v1".to_string(),
        title: String::new(),
        body: Body::ListingV1(1),
    });
    items.push(redirect(b'W', "mainPage", b'C', first));
    for i in 0..5 {
        items.push(redirect(
            b'C',
            &format!("r{i}"),
            b'C',
            &format!("кніга {i}.html"),
        ));
    }
    build(&Spec {
        version: (6, 3),
        items,
        clusters: vec![5, 0x11],
        title_pointer: TitlePointer::Absent,
        main_page: None,
    })
}

/// Format version 6, with a picture in the last cluster.
fn speedtest() -> Vec<u8> {
    let mut picture = vec![137, 80, 78, 71, 13, 10, 26, 10, 0, 0];
    picture.extend_from_slice(&[1u8; 40]);
    picture.extend_from_slice(&[0, 0, 73, 69, 78, 68, 174, 66, 96, 130]);

    let mut items = vec![
        data(b'M', "Name", TEXT, b"speedtest_en_blob-mini", 0),
        data(b'M', "Title", TEXT, b"Speedtest", 0),
        data(b'M', "Illustration_48x48@1", "image/png", &picture, 2),
        redirect(b'W', "mainPage", b'C', "page 00"),
    ];
    for i in 0..15 {
        items.push(data(b'C', &format!("page {i:02}"), HTML, b"<p>page</p>", 1));
    }
    build(&Spec {
        version: (6, 1),
        items,
        clusters: vec![5, 5, 1],
        title_pointer: TitlePointer::Absent,
        main_page: None,
    })
}

/// Format version 6, with an index in the last cluster.
fn wikipedia_en_100() -> Vec<u8> {
    let mut index = vec![15, 13, 88, 97, 112, 105, 97, 110, 32, 71];
    index.extend_from_slice(&[2u8; 100]);
    index.extend_from_slice(&[8, 121, 111, 100, 101, 108, 0, 18, 160, 4]);

    let mut items = vec![
        data(b'M', "Creator", TEXT, b"Wikipedia", 0),
        data(b'M', "Title", TEXT, b"Wikipedia 100", 0),
        data(b'X', "title/xapian", "application/octet-stream+xapian", &index, 2),
        redirect(b'W', "mainPage", b'C', "article 0"),
    ];
    for i in 0..9057 {
        let path = format!("article {i}");
        items.push(if i % 3 == 0 {
            data(b'C', &path, HTML, b"<p>article</p>", 1)
        } else {
            redirect(b'C', &path, b'C', &format!("article {}", i - i % 3))
        });
    }
    build(&Spec {
        version: (6, 3),
        items,
        clusters: vec![5, 5, 1],
        title_pointer: TitlePointer::Absent,
        main_page: None,
    })
}

fn open(raw: &[u8]) -> Zim<'_> {
    try_open(raw).expect("failed to open archive")
}

fn try_open(raw: &[u8]) -> Result<Zim<'_>> {
    Zim::new(Store::from_maps(vec![raw])?)
}

/// Opens an archive that is cut into chunks of this size.
fn open_split(raw: &[u8], chunk_size: usize) -> Zim<'_> {
    let store = Store::from_maps(raw.chunks(chunk_size).collect()).unwrap();
    Zim::new(store).expect("failed to open split archive")
}

/// Copies a blob out, for comparing against expected bytes.
fn blob(zim: &Zim, cluster: u32, idx: u32) -> Vec<u8> {
    let mut cluster = zim.get_cluster(cluster).unwrap();
    let guard = cluster.read().unwrap();

    guard.blob(idx).unwrap().to_vec()
}

fn entries(zim: &Zim) -> Vec<DirectoryEntry> {
    zim.iterate_by_urls()
        .collect()
        .into_iter()
        .map(|entry| entry.expect("entry must parse"))
        .collect()
}

/// Every entry an archive exposes, for comparing two ways of opening the same bytes.
fn snapshot(zim: &Zim) -> Vec<(String, String, String, Option<Vec<u8>>)> {
    entries(zim)
        .into_iter()
        .map(|entry| {
            let data = zim
                .entry_content(&entry)
                .expect("entry content must resolve")
                .map(|mut content| content.to_vec().expect("entry data must read"));

            (
                format!("{:?}", entry.namespace),
                entry.url.clone(),
                format!("{:?} {:?} {:?}", entry.title, entry.target, entry.mime_type),
                data,
            )
        })
        .collect()
}

#[test]
fn test_zim_speedtest_en_mini_2025() {
    let raw = speedtest();
    let zim = open(&raw);

    assert_eq!(zim.header.version_major, 6);
    assert_eq!(zim.header.article_count, 19);

    let mut cl0 = zim.get_cluster(0).unwrap();
    assert_eq!(
        &cl0.get_blob(0).unwrap()[..],
        &[
            115, 112, 101, 101, 100, 116, 101, 115, 116, 95, 101, 110, 95, 98, 108, 111, 98, 45,
            109, 105, 110, 105
        ][..]
    );
    assert_eq!(cl0.compression(), Compression::Zstd);

    let mut cl1 = zim.get_cluster(zim.header.cluster_count - 1).unwrap();
    let b = cl1.get_blob(0).unwrap();
    assert_eq!(&b[0..10], &[137, 80, 78, 71, 13, 10, 26, 10, 0, 0]);
    assert_eq!(
        &b[b.len() - 10..],
        &[0, 0, 73, 69, 78, 68, 174, 66, 96, 130],
    );

    let entries: Result<Vec<_>> = zim.iterate_by_urls().collect().into_iter().collect();
    assert_eq!(entries.unwrap().len(), 19);
}

#[test]
fn test_zim_wikipedia_en_100_2026_04() {
    let raw = wikipedia_en_100();
    let zim = open(&raw);

    assert_eq!(zim.header.version_major, 6);
    assert_eq!(zim.header.article_count, 9061);

    let mut cl0 = zim.get_cluster(0).unwrap();
    assert_eq!(
        &cl0.get_blob(0).unwrap()[..],
        &[87, 105, 107, 105, 112, 101, 100, 105, 97][..]
    );
    assert_eq!(cl0.compression(), Compression::Zstd);

    let mut cl1 = zim.get_cluster(zim.header.cluster_count - 1).unwrap();
    let b = cl1.get_blob(0).unwrap();
    assert_eq!(&b[0..10], &[15, 13, 88, 97, 112, 105, 97, 110, 32, 71]);
    assert_eq!(
        &b[b.len() - 10..],
        &[8, 121, 111, 100, 101, 108, 0, 18, 160, 4],
    );

    let entries: Result<Vec<_>> = zim.iterate_by_urls().collect().into_iter().collect();
    assert_eq!(entries.unwrap().len(), 9061);
}

/// The headline check: each supported format version opens and reports itself correctly.
#[test]
fn reads_every_supported_format_version() {
    // archive, version, entries, clusters, main page path
    let cases = [
        (v50(), (5, 0), 17, 2, "main.html"),
        (v61(), (6, 1), 16, 2, "main.html"),
        (v62(), (6, 2), 20568, 18, "index"),
        (v63(), (6, 3), 16, 2, "main.html"),
        (v63_books(), (6, 3), 123, 2, "Першая_старонка.html"),
    ];

    for (raw, version, entries, clusters, main_page) in cases {
        let zim = open(&raw);

        assert_eq!(
            (zim.header.version_major, zim.header.version_minor),
            version
        );
        assert_eq!(zim.header.article_count, entries);
        assert_eq!(zim.header.cluster_count, clusters);

        let main = zim.main_page().unwrap().expect("should have a main page");
        assert_eq!(main.url, main_page);

        // Every entry must parse, and the archive must match its own checksum.
        let parsed: Result<Vec<_>> = zim.iterate_by_urls().collect().into_iter().collect();
        assert_eq!(parsed.unwrap().len(), entries as usize);

        zim.verify_checksum().unwrap();
    }
}

/// Version 5 archives spread content over the old namespace scheme, and the main page is
/// reachable only through the header - there is no `W/mainPage` well known entry.
#[test]
fn reads_the_old_namespace_scheme() {
    let raw = v50();
    let zim = open(&raw);

    let mut seen: Vec<char> = entries(&zim)
        .iter()
        .map(|e| e.namespace.as_byte() as char)
        .collect();
    seen.sort_unstable();
    seen.dedup();
    assert_eq!(seen, ['-', 'A', 'I', 'M', 'X']);

    assert!(
        zim.find_by_path(Namespace::CategoriesArticle, "mainPage")
            .unwrap()
            .is_none(),
        "version 5 has no W namespace"
    );
    let main = zim.main_page().unwrap().expect("main page via the header");
    assert_eq!(main.namespace, Namespace::Articles);
    assert_eq!(main.url, "main.html");
}

/// The only archive using LZMA2 rather than zstd, so the only cover for that decoder.
#[test]
fn decompresses_lzma2_clusters() {
    let raw = v50();
    let zim = open(&raw);

    assert_eq!(
        zim.get_cluster(0).unwrap().compression(),
        Compression::Lzma2
    );

    let mut cluster = zim.get_cluster(0).unwrap();
    let guard = cluster.read().unwrap();
    assert_eq!(guard.blob_count(), 13);
    assert_eq!(guard.blob(0).unwrap(), b"=en");

    // The second cluster is a stored PNG, so it exercises the uncompressed path alongside.
    assert_eq!(
        zim.get_cluster(1).unwrap().compression(),
        Compression::Uncompressed
    );
    let png = blob(&zim, 1, 0);
    assert_eq!(&png[..8], b"\x89PNG\r\n\x1a\n");
}

fn patched(original: &[u8], offset: usize, value: &[u8]) -> Vec<u8> {
    let mut corrupt = original.to_vec();
    corrupt[offset..offset + value.len()].copy_from_slice(value);
    corrupt
}

/// Contradictory header offsets must be caught when the archive is opened. Otherwise they surface
/// much later as an out-of-bounds read against an unrelated structure, or - for the last cluster,
/// whose extent is derived from `checksumPos` - as silently wrong data.
#[test]
fn fixtures_corrupt_headers_are_rejected_on_open() {
    let original = v63();
    let file_len = original.len() as u64;

    let cases: [(usize, Vec<u8>, &str); 6] = [
        (
            32,
            8u64.to_le_bytes().into(),
            "pathPtrPos inside the header",
        ),
        (
            48,
            40u64.to_le_bytes().into(),
            "clusterPtrPos inside the header",
        ),
        (
            56,
            8u64.to_le_bytes().into(),
            "mimeListPos inside the header",
        ),
        (
            72,
            file_len.to_le_bytes().into(),
            "checksumPos not 16 bytes from the end",
        ),
        (
            28,
            u32::MAX.to_le_bytes().into(),
            "clusterCount exceeding entryCount",
        ),
        // Valid on its own, but the list it points at cannot fit in what is left of the file. The
        // lists are read on demand, so this has to be caught here rather than on access.
        (
            32,
            (file_len - 10).to_le_bytes().into(),
            "path pointer list running past the end",
        ),
    ];

    for (offset, value, what) in cases {
        let corrupt = patched(&original, offset, &value);

        match try_open(&corrupt) {
            Err(Error::InvalidHeader(_)) => {}
            Err(other) => panic!("{what}: expected InvalidHeader, got {other:?}"),
            Ok(_) => panic!("{what}: expected the archive to be rejected"),
        };
    }
}

#[test]
fn zim_corrupt_headers_are_rejected_on_open() {
    let original = v61();
    let file_len = original.len() as u64;

    let cases: [(usize, Vec<u8>, &str); 5] = [
        (
            32,
            8u64.to_le_bytes().into(),
            "pathPtrPos inside the header",
        ),
        (
            48,
            40u64.to_le_bytes().into(),
            "clusterPtrPos inside the header",
        ),
        (
            56,
            8u64.to_le_bytes().into(),
            "mimeListPos inside the header",
        ),
        (
            72,
            file_len.to_le_bytes().into(),
            "checksumPos not 16 bytes from the end",
        ),
        (
            28,
            u32::MAX.to_le_bytes().into(),
            "clusterCount exceeding entryCount",
        ),
    ];

    for (offset, value, what) in cases {
        let corrupt = patched(&original, offset, &value);

        match try_open(&corrupt) {
            Err(Error::InvalidHeader(_)) => {}
            Err(other) => panic!("{what}: expected InvalidHeader, got {other:?}"),
            Ok(_) => panic!("{what}: expected the archive to be rejected"),
        };
    }
}

#[test]
fn header_errors_say_what_is_wrong() {
    let original = v61();
    let file_len = original.len() as u64;
    let message = |offset: usize, value: &[u8]| -> &'static str {
        let corrupt = patched(&original, offset, value);
        let what = match try_open(&corrupt) {
            Err(Error::InvalidHeader(what)) => what,
            other => panic!("{offset}: got {:?}", other.err()),
        };
        what
    };

    assert_eq!(
        message(56, &79u64.to_le_bytes()),
        "mimeListPos overlaps the header"
    );
    assert_eq!(
        message(56, &(file_len + 1).to_le_bytes()),
        "mimeListPos is past the end of file"
    );
    assert_eq!(
        message(56, &81u64.to_le_bytes()),
        "mimeListPos does not follow the header"
    );
    assert_eq!(
        message(32, &79u64.to_le_bytes()),
        "pathPtrPos precedes mimeListPos"
    );
    assert_eq!(
        message(40, &79u64.to_le_bytes()),
        "titlePtrPos precedes mimeListPos"
    );
    assert_eq!(
        message(48, &79u64.to_le_bytes()),
        "clusterPtrPos precedes mimeListPos"
    );
    assert_eq!(
        message(72, &79u64.to_le_bytes()),
        "checksumPos precedes mimeListPos"
    );
    assert_eq!(
        message(72, &(file_len - 15).to_le_bytes()),
        "checksumPos is not 16 bytes before the end of file"
    );
    assert_eq!(
        message(72, &u64::MAX.to_le_bytes()),
        "checksumPos is not 16 bytes before the end of file"
    );
    assert_eq!(
        message(28, &0u32.to_le_bytes()),
        "entryCount and clusterCount disagree about being empty"
    );
    assert_eq!(
        message(28, &17u32.to_le_bytes()),
        "clusterCount exceeds entryCount"
    );
    assert_eq!(
        message(24, &u32::MAX.to_le_bytes()),
        "path pointer list runs past the end of file"
    );

    assert!(matches!(
        try_open(&original[..79]),
        Err(Error::InvalidHeader("file is smaller than the header"))
    ));
    assert!(matches!(
        try_open(&patched(&original, 0, &[0])),
        Err(Error::InvalidMagicNumber)
    ));
    assert!(matches!(
        try_open(&patched(&original, 4, &[7, 0])),
        Err(Error::InvalidVersion(7))
    ));
    assert!(matches!(
        try_open(&patched(&original, 48, &(file_len - 8).to_le_bytes())),
        Err(Error::OutOfBounds)
    ));
    assert!(matches!(
        try_open(&patched(&original, 80, &[0xff])),
        Err(Error::Parsing(Fault::Utf8))
    ));
}

/// Indices reaching the public accessors come from the archive itself - redirect targets, dirent
/// cluster numbers, the header's main page - so a corrupt file must produce an error rather than
/// abort the calling process.
#[test]
fn fixtures_out_of_range_accessors_error_instead_of_panicking() {
    let raw = v63();
    let zim = open(&raw);

    assert!(zim.get_by_url_index(zim.header.article_count).is_err());
    assert!(zim.get_by_url_index(u32::MAX).is_err());

    assert!(zim.get_cluster(zim.header.cluster_count).is_err());
    assert!(zim.get_cluster(u32::MAX).is_err());

    let mut cluster = zim.get_cluster(0).unwrap();
    let guard = cluster.read().unwrap();
    assert!(guard.blob(u32::MAX).is_err());

    // The offset table carries one entry more than there are blobs. Treating that end sentinel as
    // a blob used to hand back a bogus slice instead of erroring.
    let count = guard.blob_count() as u32;
    assert!(count > 0, "cluster 0 should contain at least one blob");
    assert!(guard.blob(count - 1).is_ok(), "last blob must be readable");
    assert!(guard.blob(count).is_err(), "the end sentinel is not a blob");
}

#[test]
fn zim_out_of_range_accessors_error_instead_of_panicking() {
    let raw = v61();
    let zim = open(&raw);

    assert!(zim.get_by_url_index(zim.header.article_count).is_err());
    assert!(zim.get_by_url_index(u32::MAX).is_err());

    assert!(zim.get_cluster(zim.header.cluster_count).is_err());
    assert!(zim.get_cluster(u32::MAX).is_err());

    let mut cluster = zim.get_cluster(0).unwrap();
    assert!(cluster.get_blob(u32::MAX).is_err());

    // Probe upwards for the first rejected blob index. The offset table carries one entry
    // more than there are blobs, and treating that end sentinel as a blob used to hand back
    // a bogus slice instead of erroring.
    let mut blobs = 0u32;
    while cluster.get_blob(blobs).is_ok() {
        blobs += 1;
        assert!(blobs < 10_000, "blob index probe failed to terminate");
    }
    assert!(blobs > 0, "cluster 0 should contain at least one blob");
}

fn assert_ordered(raw: &[u8]) {
    let zim = open(raw);
    for pair in entries(&zim).windows(2) {
        let before = (pair[0].namespace.as_byte(), pair[0].url.as_str());
        let after = (pair[1].namespace.as_byte(), pair[1].url.as_str());
        assert!(before < after, "{before:?} must precede {after:?}");
    }
}

/// `find_by_path` is a binary search, which is only sound because the format guarantees that
/// directory entries are stored ordered by namespace byte then path.
#[test]
fn fixtures_entries_are_ordered_by_namespace_and_path() {
    for raw in [v50(), v50_books(), v61(), v62(), v63(), v63_books()] {
        assert_ordered(&raw);
    }
}

#[test]
fn zim_entries_are_ordered_by_namespace_and_path() {
    for raw in [v61(), v62()] {
        assert_ordered(&raw);
    }
}

fn assert_well_known(zim: &Zim, wanted: &[(Namespace, &str)]) {
    for (namespace, path) in wanted {
        let found = zim.find_by_path(*namespace, path).unwrap();
        assert!(found.is_some(), "{namespace:?}/{path} should be found");

        let entry = zim.get_by_path(*namespace, path).unwrap().unwrap();
        assert_eq!(&entry.url, path);
        assert_eq!(entry.namespace, *namespace);
    }

    assert_eq!(
        zim.find_by_path(Namespace::UserContent, "definitely/not/here")
            .unwrap(),
        None
    );
    // Present as a path, but only under a different namespace.
    assert_eq!(
        zim.find_by_path(Namespace::UserContent, "mainPage")
            .unwrap(),
        None
    );
}

#[test]
fn fixtures_find_by_path_locates_well_known_entries() {
    let raw = v62();
    let zim = open(&raw);

    // The entries a reader needs in order to resolve anything in a 6.1+ archive.
    assert_well_known(
        &zim,
        &[
            (Namespace::CategoriesArticle, "mainPage"),
            (Namespace::FulltextIndex, "listing/titleOrdered/v0"),
            (Namespace::FulltextIndex, "listing/titleOrdered/v1"),
            (Namespace::FulltextIndex, "fulltext/xapian"),
            (Namespace::FulltextIndex, "title/xapian"),
            (Namespace::Metadata, "Title"),
            (Namespace::Metadata, "Illustration_48x48@1"),
        ],
    );
}

#[test]
fn zim_find_by_path_locates_well_known_entries() {
    let raw = v62();
    let zim = open(&raw);

    // The entries a reader needs in order to resolve anything in a 6.1+ archive.
    assert_well_known(
        &zim,
        &[
            (Namespace::CategoriesArticle, "mainPage"),
            (Namespace::FulltextIndex, "listing/titleOrdered/v1"),
            (Namespace::FulltextIndex, "fulltext/xapian"),
            (Namespace::FulltextIndex, "title/xapian"),
            (Namespace::Metadata, "Title"),
            (Namespace::Metadata, "Illustration_48x48@1"),
        ],
    );
}

fn assert_find_agrees(raw: &[u8]) {
    let zim = open(raw);
    for (idx, entry) in entries(&zim).iter().enumerate() {
        assert_eq!(
            zim.find_by_path(entry.namespace, &entry.url).unwrap(),
            Some(idx as u32),
            "{:?}/{}",
            entry.namespace,
            entry.url
        );
    }
}

/// Every entry must be findable at exactly its own index, which catches comparator mistakes that
/// spot checks on a handful of paths would miss.
#[test]
fn fixtures_find_by_path_agrees_with_iteration() {
    for raw in [v50(), v50_books(), v63(), v63_books()] {
        assert_find_agrees(&raw);
    }
}

#[test]
fn zim_find_by_path_agrees_with_iteration() {
    assert_find_agrees(&v61());
}

#[test]
fn namespace_range_covers_exactly_one_namespace() {
    let raw = v62();
    let zim = open(&raw);

    let range = zim.namespace_range(Namespace::Metadata).unwrap();
    assert!(!range.is_empty());

    for idx in range.clone() {
        assert_eq!(
            zim.get_by_url_index(idx).unwrap().namespace,
            Namespace::Metadata
        );
    }

    // The neighbours must fall outside it.
    if range.start > 0 {
        assert_ne!(
            zim.get_by_url_index(range.start - 1).unwrap().namespace,
            Namespace::Metadata
        );
    }
    assert_ne!(
        zim.get_by_url_index(range.end).unwrap().namespace,
        Namespace::Metadata
    );

    // A namespace without entries has an empty range.
    assert!(zim.namespace_range(Namespace::Articles).unwrap().is_empty());
    assert_eq!(zim.namespace_range(Namespace::Other(255)).unwrap(), 20568..20568);
}

#[test]
fn reads_metadata() {
    let raw = v62();
    let zim = open(&raw);

    let title = zim
        .metadata("Title")
        .unwrap()
        .expect("Title is mandatory")
        .to_vec()
        .unwrap();
    assert_eq!(
        String::from_utf8(title).unwrap(),
        "Climate change by Wikipedia"
    );

    assert!(zim.metadata("NoSuchMetadataEntry").unwrap().is_none());

    let keys = zim.metadata_keys().unwrap();
    for expected in [
        "Title",
        "Language",
        "Creator",
        "Date",
        "Illustration_48x48@1",
    ] {
        assert!(keys.contains(&expected.to_string()), "missing {expected}");
    }
    // Namespace scanning must stop at the namespace boundary rather than run to the end.
    assert!(keys.len() < zim.header.article_count as usize);
    assert_eq!(keys.len(), 5);
}

#[test]
fn exposes_xapian_indexes() {
    let raw = v62();
    let zim = open(&raw);

    // Sizes are read through the handle rather than by loading the index: on a full archive the
    // fulltext index runs to gigabytes.
    let mut fulltext = zim.fulltext_index().unwrap().expect("fulltext index");
    assert_eq!(fulltext.len().unwrap(), 1_646_592);

    let mut title = zim.title_index().unwrap().expect("title index");
    assert_eq!(title.len().unwrap(), 827_392);

    // Absent indexes are reported as such rather than erroring.
    assert!(open(&v63()).fulltext_index().unwrap().is_none());
}

/// Asking a cluster about itself must not pull its data in. Clusters are not small, so a reader
/// that inspects every cluster, as `zim-info` does, would otherwise fault in most of the archive.
#[test]
fn cluster_data_loads_only_on_blob_access() {
    let raw = v62();
    let zim = open(&raw);

    for idx in 0..zim.header.cluster_count {
        let cluster = zim.get_cluster(idx).unwrap();
        let _ = cluster.compression();
        assert!(
            !cluster.is_loaded(),
            "cluster {idx} was loaded just to report its compression"
        );
    }

    let mut cluster = zim.get_cluster(0).unwrap();
    let guard = cluster.read().unwrap();
    assert!(guard.blob_count() > 0);
    assert!(cluster.is_loaded(), "reading a blob must load the cluster");
}

/// Content from an uncompressed cluster must be borrowed straight from the mapping rather than
/// copied. This is what keeps a multi-gigabyte search index from having to be read into memory in
/// order to be used, and the format requires indexes and listings to be stored uncompressed
/// precisely so that this is possible.
#[test]
fn index_content_is_borrowed_from_the_mapping() {
    let raw = v62();
    let zim = open(&raw);

    for mut content in [
        zim.fulltext_index().unwrap().expect("fulltext index"),
        zim.title_index().unwrap().expect("title index"),
    ] {
        let borrowed = content
            .with(|bytes| {
                let start = bytes.as_ptr() as usize;

                zim.store
                    .prefix_chunks(zim.store.len())
                    .iter()
                    .any(|chunk| {
                        let low = chunk.as_ptr() as usize;
                        start >= low && start < low + chunk.len()
                    })
            })
            .unwrap();

        assert!(borrowed, "content must point into the mapping, not a copy");
    }
}

/// Version 6.3 removed both the header's title pointer list and the `v0` listing, leaving only the
/// article listing. Title ordering must still be reachable for such archives.
#[test]
fn title_listings_track_the_format_version() {
    for raw in [v50(), v61(), v62()] {
        let zim = open(&raw);
        assert!(
            zim.header.title_ptr_pos.is_some(),
            "predates 6.3 and should carry titlePtrPos"
        );
        assert!(
            zim.entry_list_by_title().unwrap().is_some(),
            "should expose an all-entry title listing"
        );
    }

    for raw in [v63(), v63_books()] {
        let zim = open(&raw);
        assert!(zim.header.title_ptr_pos.is_none());
        assert!(
            zim.entry_list_by_title().unwrap().is_none(),
            "dropped both the v0 listing and titlePtrPos"
        );

        let mut articles = zim
            .article_list_by_title()
            .unwrap()
            .expect("6.3 archives carry the v1 listing");
        assert!(!articles.is_empty().unwrap());
        assert!(articles.len().unwrap() <= zim.header.article_count as usize);

        // The listing must decode to real indices, in title order - a wrong element width or
        // endianness would still produce a plausible-looking list of numbers.
        let mut titles: Vec<String> = Vec::new();
        for idx in articles.to_vec().unwrap() {
            let entry = zim
                .get_by_url_index(idx)
                .expect("listing index must be valid");
            titles.push(if entry.title.is_empty() {
                entry.url
            } else {
                entry.title
            });
        }
        assert!(
            titles.windows(2).all(|pair| pair[0] <= pair[1]),
            "v1 listing is not in title order"
        );
    }
}

/// In the format `titlePtrPos` points directly at the `v0` listing entry's data. Check that
/// against the archive rather than trusting it, since the header pointer is the fallback used
/// when the listing entry is absent.
#[test]
fn title_pointer_addresses_the_v0_listing_data() {
    let raw = v61();
    let zim = open(&raw);

    let via_entry = zim
        .entry_list_by_title()
        .unwrap()
        .expect("6.1 archives carry the v0 listing")
        .to_vec()
        .unwrap();
    assert_eq!(via_entry.len(), zim.header.article_count as usize);

    let pos = zim
        .header
        .title_ptr_pos
        .expect("6.1 archives carry titlePtrPos");
    let raw = zim
        .store
        .slice(pos, via_entry.len() as u64 * 4)
        .expect("titlePtrPos must address readable bytes");
    let via_header: Vec<u32> = raw
        .chunks_exact(4)
        .map(|raw| u32::from_le_bytes([raw[0], raw[1], raw[2], raw[3]]))
        .collect();

    assert_eq!(via_header, via_entry);
    assert_eq!(zim.article_list.as_ref().unwrap(), &via_entry);
}

#[test]
fn the_header_list_stands_in_for_the_v0_listing() {
    let raw = v50();
    let zim = open(&raw);
    let mut listing = zim.entry_list_by_title().unwrap().unwrap();
    assert_eq!(listing.len().unwrap(), 17);
    assert!(!listing.is_empty().unwrap());
    let indices = listing.to_vec().unwrap();
    let titles: Vec<String> = indices
        .iter()
        .map(|idx| zim.get_by_url_index(*idx).unwrap().url)
        .collect();
    assert!(titles.windows(2).all(|pair| pair[0] <= pair[1]));
    assert!(zim.article_list_by_title().unwrap().is_none());

    // a stale pointer does not prevent opening, but is reported when it is used
    let stale = patched(&raw, 40, &(raw.len() as u64).to_le_bytes());
    let zim = open(&stale);
    assert!(zim.article_list.is_none());
    assert!(matches!(
        zim.entry_list_by_title(),
        Err(Error::OutOfBounds)
    ));
}

/// A split archive is the concatenation of its chunks, so it must read exactly like the whole
/// file - including for structures that straddle a chunk boundary and therefore have no
/// contiguous backing to borrow from.
#[test]
fn reads_a_split_archive_identically_to_the_whole_file() {
    let raw = v63_books();
    let single = open(&raw);
    single
        .verify_checksum()
        .expect("the checksum must match");
    let expected = snapshot(&single);

    // Boundaries chosen to land in the directory entries, the clusters, the pointer lists, and
    // inside the trailing checksum respectively.
    for chunk_size in [7, 1_000, 40_000, raw.len() / 2, raw.len() - 20, raw.len() - 1] {
        let split = open_split(&raw, chunk_size);
        assert_eq!(
            split.store.len(),
            raw.len() as u64,
            "chunk size {chunk_size}"
        );
        assert_eq!(
            split.header.article_count, single.header.article_count,
            "chunk size {chunk_size}"
        );

        let actual = snapshot(&split);
        assert_eq!(actual.len(), expected.len(), "chunk size {chunk_size}");
        for (idx, (got, want)) in actual.iter().zip(expected.iter()).enumerate() {
            assert_eq!(got, want, "chunk size {chunk_size}, entry {idx}");
        }

        // The checksum covers the archive as a whole, not any single chunk.
        split
            .verify_checksum()
            .unwrap_or_else(|e| panic!("chunk size {chunk_size}: checksum: {e:?}"));

        // Naming the first chunk must resolve to the same archive. There are 676 names for chunks.
        if raw.len() / chunk_size < 676 {
            let names: Vec<String> = chunk_suffixes()
                .iter()
                .map(|suffix| format!("archive.zim{suffix}"))
                .collect();
            let files: Vec<(&str, &[u8])> = names
                .iter()
                .map(|name| name.as_str())
                .zip(raw.chunks(chunk_size))
                .collect();
            for path in ["archive.zim", "archive.zimaa"] {
                let via_name = open_files(path, &files).expect("failed to open by name");
                assert_eq!(via_name.store.len(), raw.len() as u64);
            }
        }
    }
}

/// Opens an archive from these files.
fn open_files<'a>(path: &str, files: &[(&str, &'a [u8])]) -> Result<Zim<'a>> {
    let base = chunk_base(path);
    let mut opening = Store::open(path);
    let mut maps = Vec::new();
    loop {
        let name = match opening.step() {
            Step::Whole => path.to_string(),
            Step::Chunk(suffix) => format!("{base}{suffix}"),
            Step::Assemble => return Zim::new(Store::from_maps(maps)?),
            Step::Missing => return Err(Error::OutOfBounds),
        };
        let found = files.iter().find(|(file, _)| *file == name);
        opening.answer(found.is_some());
        if let Some((_, raw)) = found {
            maps.push(*raw);
        }
    }
}

/// A whole archive takes precedence over chunks sharing its name, and a chunk sequence stops at
/// the first gap rather than skipping over it.
#[test]
fn chunk_discovery_prefers_the_whole_archive_and_stops_at_a_gap() {
    let raw = v63();
    let third = raw.len() / 3;
    let (aa, ab, ac) = (&raw[..third], &raw[third..2 * third], &raw[2 * third..]);

    assert!(open_files(
        "archive.zim",
        &[("archive.zimaa", aa), ("archive.zimab", ab), ("archive.zimac", ac)]
    )
    .is_ok());

    // Dropping the second chunk truncates the archive, which must fail the header's "checksum
    // sits 16 bytes before the end" invariant rather than read short.
    assert!(
        open_files("archive.zim", &[("archive.zimaa", aa), ("archive.zimac", ac)]).is_err(),
        "a gap must not be skipped over"
    );

    // With the whole archive present under the same name, the chunks are ignored.
    let whole = open_files(
        "archive.zim",
        &[("archive.zim", &raw), ("archive.zimaa", aa), ("archive.zimac", ac)],
    )
    .expect("failed to open whole archive");
    assert_eq!(whole.store.len(), raw.len() as u64);
}

/// Chunks need not be of one size: a reader must not assume a fixed part stride.
#[test]
fn reads_the_suite_pre_split_archives() {
    for raw in [v50_books(), v61(), v63_books()] {
        let whole = open(&raw);
        let cuts = [100, 101, 700, raw.len() - 3];
        let parts = [
            ("a.zimaa", &raw[..cuts[0]]),
            ("a.zimab", &raw[cuts[0]..cuts[1]]),
            ("a.zimac", &raw[cuts[1]..cuts[2]]),
            ("a.zimad", &raw[cuts[2]..cuts[3]]),
            ("a.zimae", &raw[cuts[3]..]),
        ];
        let split = open_files("a.zim", &parts).unwrap();

        assert_eq!(split.store.len(), whole.store.len());
        assert_eq!(split.header.article_count, whole.header.article_count);
        assert_eq!(snapshot(&split), snapshot(&whole));
        split.verify_checksum().unwrap();

        // Naming the first chunk resolves the same archive.
        let via_chunk = open_files("a.zimaa", &parts).unwrap();
        assert_eq!(via_chunk.store.len(), whole.store.len());
    }
}

/// A `.zimaa` name always means the chunked archive. If that rule were dropped, the name would
/// silently open a single-file archive of the same stem - a wrong-file bug producing a perfectly
/// valid result that no other assertion could catch.
#[test]
fn a_first_chunk_name_never_opens_a_whole_archive() {
    // This archive exists only in single-file form, so its `.zimaa` name must not resolve.
    let raw = v61();
    assert!(open_files("a.zim", &[("a.zim", &raw)]).is_ok());
    assert!(
        open_files("a.zimaa", &[("a.zim", &raw)]).is_err(),
        "a .zimaa name must not fall back to the whole archive"
    );
}

fn u64_in(raw: &[u8], at: usize) -> u64 {
    u64::from_le_bytes(raw[at..at + 8].try_into().unwrap())
}

/// The offset of an entry's pointer, and of the entry.
fn dirent_at(raw: &[u8], idx: usize) -> (usize, usize) {
    let ptr = u64_in(raw, 32) as usize + 8 * idx;
    (ptr, u64_in(raw, ptr) as usize)
}

fn cluster_at(raw: &[u8], idx: usize) -> (usize, usize) {
    let ptr = u64_in(raw, 48) as usize + 8 * idx;
    (ptr, u64_in(raw, ptr) as usize)
}

/// What a deliberately corrupted archive is expected to do.
///
/// The point is the *tier*, not just "it fails somewhere": a lazy failure silently becoming an
/// open failure, or vice versa, is what breaks real archives, and a blanket "does not panic" loop
/// cannot see that.
#[derive(Debug, PartialEq)]
enum Fails {
    /// Rejected by `Zim::new`.
    AtOpen,
    /// Opens, but this entry index fails to parse.
    AtEntry(usize),
    /// Opens and every entry parses, but this cluster cannot be read.
    AtCluster(u32),
    /// Opens and reads clean - we have no validator for this corruption.
    Never,
}

/// Classifies an archive by where it first fails.
fn failure_tier(raw: &[u8]) -> Fails {
    let Ok(zim) = try_open(raw) else {
        return Fails::AtOpen;
    };

    for (idx, entry) in zim.iterate_by_urls().collect().iter().enumerate() {
        if entry.is_err() {
            return Fails::AtEntry(idx);
        }
    }

    for idx in 0..zim.header.cluster_count {
        if zim
            .get_cluster(idx)
            .and_then(|mut c| c.read().map(|_| ()))
            .is_err()
        {
            return Fails::AtCluster(idx);
        }
    }

    Fails::Never
}

/// Archives that are broken in one place each, and how they must fail.
fn corrupt_archives(good: &[u8]) -> Vec<(&'static str, Vec<u8>, Fails)> {
    let len = good.len() as u64;
    let last = u32::from_le_bytes(good[24..28].try_into().unwrap()) as usize - 1;
    let (first_ptr, _) = dirent_at(good, 0);
    let (last_ptr, _) = dirent_at(good, last);
    let (_, eighth) = dirent_at(good, 8);
    let (cluster_ptr, _) = cluster_at(good, 0);
    let (_, second) = cluster_at(good, 1);
    let table = second + 1;
    let word = |n: u32| n.to_le_bytes();
    let long = |n: u64| n.to_le_bytes();

    let mut swapped = good.to_vec();
    let (a, b) = (dirent_at(good, 0).0, dirent_at(good, 1).0);
    for i in 0..8 {
        swapped.swap(a + i, b + i);
    }
    let mut list = good.to_vec();
    for byte in list[80..110].iter_mut() {
        *byte = 0xff;
    }

    let mut out = vec![
        ("smaller_than_header", good[..60].to_vec(), Fails::AtOpen),
        ("invalid_mimelistpos", patched(good, 56, &long(72)), Fails::AtOpen),
        ("invalid_checksumpos", patched(good, 72, &long(len - 20)), Fails::AtOpen),
        ("outofbounds_urlptrpos", patched(good, 32, &long(len + 1)), Fails::AtOpen),
        ("outofbounds_clusterptrpos", patched(good, 48, &long(len + 1)), Fails::AtOpen),
        ("bad_mimetype_list", list, Fails::AtOpen),
        (
            "outofbounds_first_direntptr",
            patched(good, first_ptr, &long(len + 1)),
            Fails::AtEntry(0),
        ),
        (
            "outofbounds_last_direntptr",
            patched(good, last_ptr, &long(len + 1)),
            Fails::AtEntry(last),
        ),
        (
            "bad_mimetype_in_dirent",
            patched(good, eighth, &[0xc8, 0x00]),
            Fails::AtEntry(8),
        ),
        (
            "outofbounds_first_clusterptr",
            patched(good, cluster_ptr, &long(len + 1)),
            Fails::AtCluster(0),
        ),
        (
            "offset_in_cluster",
            patched(good, table + 4, &word(1)),
            Fails::AtCluster(1),
        ),
        (
            "too_large_offset_of_first_blob_in_cluster",
            patched(good, table, &word(0x7fff_fffc)),
            Fails::AtCluster(1),
        ),
        ("nonsorted_dirent_table", swapped, Fails::Never),
        (
            "too_small_offset_of_first_blob_in_cluster_4",
            patched(good, table, &word(4)),
            Fails::Never,
        ),
    ];
    for (name, first) in [
        ("too_small_offset_of_first_blob_in_cluster_0", 0),
        ("too_small_offset_of_first_blob_in_cluster_7", 7),
        ("misaligned_offset_of_first_blob_in_cluster_9", 9),
        ("misaligned_offset_of_first_blob_in_cluster_10", 10),
        ("misaligned_offset_of_first_blob_in_cluster_11", 11),
    ] {
        out.push((name, patched(good, table, &word(first)), Fails::AtCluster(1)));
    }
    let title_pos = u64_in(good, 40);
    if title_pos != u64::MAX {
        let at = title_pos as usize;
        let end = at + 4 * last;
        out.push(("outofbounds_titleptrpos", patched(good, 40, &long(len + 1)), Fails::Never));
        out.push(("outofbounds_first_title_entry", patched(good, at, &word(9999)), Fails::Never));
        out.push(("outofbounds_last_title_entry", patched(good, end, &word(9999)), Fails::Never));
        let mut swapped = good.to_vec();
        for i in 0..4 {
            swapped.swap(at + i, at + 4 + i);
        }
        out.push(("nonsorted_title_index", swapped, Fails::Never));
    }
    out
}

/// Every kind of corruption, across all three variants, pinned to the exact point at which it
/// fails.
#[test]
fn corrupt_archives_fail_at_the_expected_point() {
    for good in [v50(), v61(), v63()] {
        assert_eq!(failure_tier(&good), Fails::Never);

        let corrupt = corrupt_archives(&good);
        assert!(corrupt.len() >= 19);
        for (name, raw, expected) in corrupt {
            assert_eq!(failure_tier(&raw), expected, "{name}");
        }
    }
}

/// A reader handed an untrusted file must reject it, not abort the process. Every one of these is
/// exercised end to end - opened, walked, and every blob read - and the test passes only by
/// reaching the end without panicking.
#[test]
fn corrupt_archives_are_rejected_without_panicking() {
    let good = v61();
    let corrupt = corrupt_archives(&good);
    assert!(corrupt.len() >= 20);

    let mut rejected_at_open = 0usize;
    for (name, raw, _) in &corrupt {
        let Ok(zim) = try_open(raw) else {
            rejected_at_open += 1;
            continue;
        };

        for entry in zim.iterate_by_urls().collect() {
            let Ok(entry) = entry else { continue };
            if let Ok(Some(mut content)) = zim.entry_content(&entry) {
                let _ = content.to_vec();
            }
        }

        for idx in 0..zim.header.cluster_count {
            let Ok(mut cluster) = zim.get_cluster(idx) else {
                continue;
            };
            let Ok(guard) = cluster.read() else { continue };
            for blob in 0..guard.blob_count() as u32 + 1 {
                let _ = guard.blob(blob);
            }
        }

        let _ = zim.main_page();
        let _ = zim.metadata_keys();
        let _ = zim.entry_list_by_title().map(|l| l.map(|mut l| l.to_vec()));
        let _ = zim.article_list_by_title().map(|l| l.map(|mut l| l.to_vec()));
        let _ = zim.fulltext_index();

        // None of these archives is intact, so none may pass the checksum.
        assert!(zim.verify_checksum().is_err(), "{name} passed its checksum");
    }

    assert!(
        rejected_at_open >= 5,
        "expected the header checks to reject several archives outright, got {rejected_at_open}"
    );
}

/// One unreadable entry must not cost the rest of the archive. Iteration reports it and carries
/// on, and its neighbours stay reachable by index.
#[test]
fn a_single_bad_entry_does_not_poison_the_archive() {
    let good = v61();
    let (_, eighth) = dirent_at(&good, 8);
    let raw = patched(&good, eighth, &[0xc8, 0x00]);
    let zim = open(&raw);

    let results = zim.iterate_by_urls().collect();
    assert_eq!(results.len(), zim.header.article_count as usize);
    assert_eq!(
        results.iter().filter(|r| r.is_err()).count(),
        1,
        "exactly one entry should fail"
    );
    assert!(results[8].is_err());
    assert!(matches!(results[8], Err(Error::UnknownMimeType)));

    // Its neighbours are unaffected.
    assert!(zim.get_by_url_index(7).is_ok());
    assert!(zim.get_by_url_index(9).is_ok());
}

/// Listing entries hold entry indices straight off disk. Feeding one back in must be bounds
/// checked - this is the step that turns a corrupt file into an out-of-range access.
#[test]
fn listing_indices_are_treated_as_untrusted() {
    let good = v61();
    for (name, raw, _) in corrupt_archives(&good) {
        if !name.ends_with("title_entry") && name != "nonsorted_title_index" {
            continue;
        }
        let zim = open(&raw);
        let mut listing = zim.entry_list_by_title().unwrap().unwrap();

        let mut out_of_range = 0usize;
        for idx in listing.to_vec().unwrap() {
            if zim.get_by_url_index(idx).is_err() {
                out_of_range += 1;
            }
        }

        // Whatever the listing claims, nothing may panic and the archive stays usable.
        assert!(zim.get_by_url_index(0).is_ok(), "{name}");
        assert_eq!(out_of_range, if name.ends_with("title_entry") { 1 } else { 0 }, "{name}");
    }
}

/// Redirects are a third of the entries in a real archive, and `resolve` is public API, yet the
/// redirect branch of dirent parsing reads its target from the same field offset that holds the
/// cluster number for content entries - a regression there yields a plausible wrong index.
#[test]
fn resolves_redirects_to_their_target() {
    let raw = v63_books();
    let zim = open(&raw);

    let redirects: Vec<_> = entries(&zim)
        .into_iter()
        .filter(|e| e.mime_type == MimeType::Redirect)
        .collect();
    assert_eq!(redirects.len(), 6);

    for entry in redirects {
        let Some(Target::Redirect(target)) = entry.target else {
            panic!("a redirect must carry a redirect target");
        };
        assert!(target < zim.header.article_count, "target in range");

        // A redirect stores no content of its own.
        assert!(zim.entry_content(&entry).unwrap().is_none());

        let url = entry.url.clone();
        let resolved = zim.resolve(entry).expect("redirect must resolve");
        assert_ne!(
            resolved.mime_type,
            MimeType::Redirect,
            "{url} resolved to another redirect"
        );
        assert_eq!(
            resolved.url,
            zim.get_by_url_index(target).unwrap().url,
            "{url} resolved somewhere other than its target"
        );
        assert!(zim.entry_content(&resolved).unwrap().is_some());
    }
}

/// Overwrites the redirect target of entry `idx`.
///
/// A redirect dirent is mimetype(2) parameterLen(1) namespace(1) revision(4) target(4), so the
/// target sits at offset 8.
fn patch_redirect_target(raw: &[u8], idx: usize, target: u32) -> Vec<u8> {
    let (_, dirent) = dirent_at(raw, idx);
    assert_eq!(
        u16::from_le_bytes(raw[dirent..dirent + 2].try_into().unwrap()),
        0xffff,
        "entry {idx} must be a redirect"
    );
    patched(raw, dirent + 8, &target.to_le_bytes())
}

/// A redirect may legally point at another redirect, so resolution follows the chain - which
/// means a cycle has to be bounded. A self-redirect is the cheapest denial of service against a
/// reader.
#[test]
fn redirect_cycles_and_bad_targets_are_rejected() {
    // Entry 12 is W/mainPage, a redirect to entry 1.
    let looping = patch_redirect_target(&v61(), 12, 12);
    let zim = open(&looping);
    let entry = zim.get_by_url_index(12).unwrap();
    assert!(
        matches!(zim.resolve(entry), Err(Error::RedirectLoop)),
        "a self-redirect must be caught, not followed forever"
    );
    assert!(matches!(zim.main_page(), Err(Error::RedirectLoop)));

    let dangling = patch_redirect_target(&v61(), 12, u32::MAX);
    let zim = open(&dangling);
    let entry = zim.get_by_url_index(12).unwrap();
    assert!(
        matches!(zim.resolve(entry), Err(Error::OutOfBounds)),
        "a target past the end must error, not panic"
    );
}

/// A chain of redirects is followed to its end even if it visits every entry.
#[test]
fn long_redirect_chains_are_followed() {
    let mut items = vec![data(b'C', "z", HTML, b"end", 0)];
    let names: Vec<String> = (0..40).map(|i| format!("r{i:02}")).collect();
    for i in 0..40 {
        let target = if i + 1 < 40 { names[i + 1].as_str() } else { "z" };
        items.push(redirect(b'C', &names[i], b'C', target));
    }
    let raw = build(&Spec {
        version: (6, 1),
        items,
        clusters: vec![1],
        title_pointer: TitlePointer::Absent,
        main_page: Some((b'C', "r00")),
    });
    let zim = open(&raw);
    assert_eq!(zim.main_page().unwrap().unwrap().url, "z");

    // the last redirect leads back to the first
    let cycle = patch_redirect_target(&raw, 39, 0);
    let zim = open(&cycle);
    assert!(matches!(zim.main_page(), Err(Error::RedirectLoop)));
}

/// Reads every blob of every archive. Covers the last cluster's extent, which is derived from
/// `checksumPos` rather than the pointer table, and both decoders, in one pass.
#[test]
fn reads_every_blob_of_every_fixture() {
    // archive, total blobs across all clusters
    for (raw, total) in [
        (v50(), 16),
        (v50_books(), 113),
        (v61(), 15),
        (v62(), 4001),
        (v63(), 15),
        (v63_books(), 117),
    ] {
        let zim = open(&raw);

        let mut blobs = 0usize;
        let mut bytes = 0usize;
        for idx in 0..zim.header.cluster_count {
            let mut cluster = zim.get_cluster(idx).unwrap();
            let guard = cluster.read().unwrap();

            for blob in 0..guard.blob_count() as u32 {
                bytes += guard.blob(blob).unwrap().len();
            }
            blobs += guard.blob_count();

            // One past the last blob is the offset table's end sentinel, not a blob.
            assert!(guard.blob(guard.blob_count() as u32).is_err());
        }

        assert_eq!(blobs, total);
        assert!(bytes > 0);
    }
}

/// The MIME list sits immediately after the header, so `mimeListPos` is the header size and is
/// always 80. Accepting any other value reads the list out of the middle of another structure and
/// yields plausible but wrong types for every entry, which is far worse than refusing the file.
#[test]
fn mime_list_pos_is_pinned_to_the_header_size() {
    let original = v61();

    for pos in [0u64, 72, 79, 81, 96, 255] {
        let corrupt = patched(&original, 56, &pos.to_le_bytes());
        assert!(
            matches!(try_open(&corrupt), Err(Error::InvalidHeader(_))),
            "mimeListPos {pos} should be rejected"
        );
    }
}

/// Truncated files, empty files, and valid magic over a garbage body must all be refused rather
/// than opened or panicked on.
#[test]
fn garbage_input_is_refused() {
    let magic = 72_173_914u32.to_le_bytes();

    for with_magic in [false, true] {
        for fill in [0x00u8, 0x01, 0x11, 0x30, 0xff] {
            for len in [0usize, 4, 8, 40, 79, 80, 88, 200] {
                let mut raw = vec![fill; len];
                if with_magic && len >= 4 {
                    raw[..4].copy_from_slice(&magic);
                }

                assert!(
                    try_open(&raw).is_err(),
                    "magic={with_magic} fill={fill:#x} len={len} should be refused"
                );
            }
        }
    }
}

/// A failing checksum must not stop an archive being read. Verification is a separate step, and
/// refusing to open would reject archives that other readers read happily.
#[test]
fn a_bad_checksum_does_not_prevent_reading() {
    let mut raw = v63();
    let len = raw.len();
    raw[len - 8] ^= 0xff; // inside the trailing MD5

    let zim = open(&raw);
    assert!(matches!(zim.verify_checksum(), Err(Error::InvalidChecksum)));

    // and the content is still fully readable
    let entries: Result<Vec<_>> = zim.iterate_by_urls().collect().into_iter().collect();
    assert_eq!(entries.unwrap().len(), zim.header.article_count as usize);
    assert!(zim.main_page().unwrap().is_some());
}

#[test]
fn a_changed_byte_fails_the_checksum() {
    let mut raw = v63();
    raw[100] ^= 1;
    for chunk_size in [64, raw.len()] {
        let zim = open_split(&raw, chunk_size);
        assert!(matches!(zim.verify_checksum(), Err(Error::InvalidChecksum)));
    }
}

#[test]
fn headers_are_read_field_by_field() {
    let raw = v61();
    let zim = open(&raw);
    let header = &zim.header;
    assert_eq!(header.uuid.as_bytes()[0], 0xa0);
    assert_eq!(header.uuid.as_bytes()[15], 0xaf);
    assert_eq!(header.uuid.text(), "a0a1a2a3-a4a5-a6a7-a8a9-aaabacadaeaf");
    assert_eq!(header.mime_list_pos, 80);
    assert_eq!(header.main_page, Some(1));
    assert_eq!(header.layout_page, None);
    assert_eq!(header.checksum_pos, raw.len() as u64 - 16);
    assert_eq!(header.url_ptr_pos, u64_in(&raw, 32));
    assert_eq!(header.cluster_ptr_pos, u64_in(&raw, 48));
    assert_eq!(zim.url_list.len(), 16);
    assert_eq!(zim.cluster_list.len(), 2);
    assert_eq!(
        zim.mime_table,
        [
            "image/png",
            "text/html",
            "text/plain",
            "application/octet-stream+zimlisting",
            "application/octet-stream+xapian"
        ]
    );
    assert_eq!(
        zim.get_mimetype(1),
        Some(MimeType::Type("text/html".to_string()))
    );
    assert_eq!(zim.get_mimetype(5), None);
    assert_eq!(zim.get_mimetype(0xffff), Some(MimeType::Redirect));
    assert_eq!(zim.get_mimetype(0xfffe), Some(MimeType::LinkTarget));
    assert_eq!(zim.get_mimetype(0xfffd), Some(MimeType::DeletedEntry));
    let mut hex = String::new();
    for byte in &raw[raw.len() - 16..] {
        hex.push_str(&format!("{byte:02x}"));
    }
    assert_eq!(zim.checksum_text(), hex);
}

#[test]
fn entries_without_contents_have_no_target() {
    let mut spec = v61_spec();
    spec.items.push(Item {
        namespace: b'C',
        path: "link".to_string(),
        title: "Link".to_string(),
        body: Body::LinkTarget,
    });
    let raw = build(&spec);
    let zim = open(&raw);
    let entry = zim
        .get_by_path(Namespace::UserContent, "link")
        .unwrap()
        .unwrap();
    assert_eq!(entry.mime_type, MimeType::LinkTarget);
    assert_eq!(entry.title, "Link");
    assert_eq!(entry.target, None);
    assert!(zim.entry_content(&entry).unwrap().is_none());
    assert_eq!(zim.resolve(entry).unwrap().url, "link");
}

#[test]
fn entry_errors_say_what_is_wrong() {
    let raw = v61();
    let (ptr, dirent) = dirent_at(&raw, 15);
    let len = raw.len() as u64;
    let at = |offset: u64| {
        let raw = patched(&raw, ptr, &offset.to_le_bytes());
        let zim = open(&raw);
        zim.get_by_url_index(15).err()
    };
    assert!(at(dirent as u64).is_none());
    assert!(matches!(at(len + 1), Some(Error::OutOfBounds)));
    assert!(matches!(at(len), Some(Error::Parsing(Fault::Io))));
    assert!(matches!(at(len - 1), Some(Error::Parsing(Fault::Io))));

    // no zero byte up to the end of the archive
    let mut open_ended = raw.clone();
    let start = open_ended.len() - 17;
    for byte in open_ended[start..].iter_mut() {
        *byte = b'x';
    }
    open_ended[start..start + 2].copy_from_slice(&[0, 0]);
    let moved = patched(&open_ended, ptr, &(start as u64).to_le_bytes());
    assert!(matches!(
        open(&moved).get_by_url_index(15),
        Err(Error::UnterminatedString)
    ));

    let bad_text = patched(&raw, dirent + 16, &[0xff]);
    assert!(matches!(
        open(&bad_text).get_by_url_index(15),
        Err(Error::Parsing(Fault::Utf8))
    ));
}

#[test]
fn extended_clusters_need_version_6() {
    let mut spec = v61_spec();
    spec.clusters = vec![0x15, 0x11];
    let raw = build(&spec);
    let zim = open(&raw);
    assert_eq!(blob(&zim, 0, 0), b"<p>main</p>");
    assert_eq!(blob(&zim, 1, 0), PNG);

    let old = patched(&raw, 4, &[5, 0]);
    assert!(matches!(
        open(&old).get_cluster(0),
        Err(Error::InvalidClusterExtension)
    ));
}

#[test]
fn cluster_errors_say_what_is_wrong() {
    let raw = v61();
    let (ptr, first) = cluster_at(&raw, 0);
    let (_, second) = cluster_at(&raw, 1);
    let details = |byte: u8| {
        let raw = patched(&raw, first, &[byte]);
        let zim = open(&raw);
        let err = zim.get_cluster(0).err();
        err
    };
    assert!(details(5).is_none());
    assert!(matches!(details(2), Some(Error::UnsupportedCompression(2))));
    assert!(matches!(details(9), Some(Error::UnknownCompression(9))));

    // an empty extent
    let empty = patched(&raw, ptr, &(second as u64).to_le_bytes());
    assert!(matches!(
        open(&empty).get_cluster(0),
        Err(Error::OutOfBounds)
    ));

    // a payload that is not what the decoder takes
    let garbage = patched(&raw, first + 1, &[0, 1, 2, 3]);
    let zim = open(&garbage);
    let mut cluster = zim.get_cluster(0).unwrap();
    assert!(matches!(
        cluster.decompress(),
        Err(Error::Parsing(Fault::Io))
    ));
    assert!(!cluster.is_loaded());
    assert!(matches!(
        cluster.blob_to_vec(0),
        Err(Error::Parsing(Fault::Io))
    ));

    // a table that does not parse is refused each time
    let broken = patched(&raw, second + 1, &6u32.to_le_bytes());
    let zim = open(&broken);
    let mut cluster = zim.get_cluster(1).unwrap();
    for _ in 0..2 {
        assert!(matches!(cluster.decompress(), Err(Error::InvalidBlobList)));
        assert!(!cluster.is_loaded());
        assert!(matches!(
            cluster.blob_to_vec(0),
            Err(Error::InvalidBlobList)
        ));
    }

    // a cluster of one byte has room for neither a payload nor a table
    let short = patched(&raw, cluster_at(&raw, 1).0, &(first as u64 + 1).to_le_bytes());
    let short = patched(&short, first, &[1]);
    let zim = open(&short);
    let mut cluster = zim.get_cluster(0).unwrap();
    assert!(matches!(
        cluster.decompress(),
        Err(Error::Parsing(Fault::Io))
    ));
}

#[test]
fn loading_a_cluster_changes_nothing_else() {
    let raw = v50();
    for chunk_size in [50, raw.len()] {
        let zim = open_split(&raw, chunk_size);
        let mut cluster = zim.get_cluster(0).unwrap();
        assert!(!cluster.is_loaded());
        cluster.decompress().unwrap();
        assert!(cluster.is_loaded());
        cluster.decompress().unwrap();
        assert_eq!(cluster.compression(), Compression::Lzma2);

        let mut twin = cluster.clone();
        assert!(twin.is_loaded());
        assert_eq!(twin.compression(), Compression::Lzma2);
        assert_eq!(twin.blob_to_vec(2).unwrap(), cluster.blob_to_vec(2).unwrap());
        let mut fresh = zim.get_cluster(1).unwrap().clone();
        assert!(!fresh.is_loaded());
        assert_eq!(fresh.blob_to_vec(0).unwrap(), PNG);

        let copied = cluster.blob_to_vec(2).unwrap();
        let lent = cluster.get_blob(2).unwrap();
        assert_eq!(copied, &lent[..]);
        assert_eq!(lent.as_ref(), &copied[..]);
    }
}

#[test]
fn listings_of_odd_length_are_refused() {
    let mut spec = v61_spec();
    spec.items
        .retain(|item| item.path != "listing/titleOrdered/v1");
    spec.items.push(data(
        b'X',
        "listing/titleOrdered/v1",
        "application/octet-stream+zimlisting",
        &[1, 0, 0, 0, 2],
        1,
    ));
    let raw = build(&spec);
    let zim = open(&raw);
    let mut listing = zim.article_list_by_title().unwrap().unwrap();
    assert!(matches!(listing.to_vec(), Err(Error::InvalidListing)));
    assert!(matches!(listing.len(), Err(Error::InvalidListing)));
    assert!(matches!(listing.is_empty(), Err(Error::InvalidListing)));
}

#[test]
fn contents_are_handed_out_in_several_ways() {
    let raw = v61();
    let zim = open(&raw);
    let mut content = zim.metadata("Title").unwrap().unwrap();
    assert_eq!(content.len().unwrap(), 5);
    assert_eq!(content.as_slice().unwrap(), b"title");
    assert_eq!(content.with(|bytes| bytes.len()).unwrap(), 5);
    assert_eq!(content.to_vec().unwrap(), b"title");
    assert_eq!(
        zim.title_index().unwrap().unwrap().to_vec().unwrap(),
        b"title"
    );
}

#[test]
fn iteration_hands_out_one_entry_at_a_time() {
    let raw = v61();
    let zim = open(&raw);
    let mut iter = zim.iterate_by_urls();
    assert_eq!(iter.next().unwrap().unwrap().url, "favicon.png");
    assert_eq!(iter.next().unwrap().unwrap().url, "main.html");
    assert_eq!(iter.collect().len(), 14);
    assert!(iter.next().is_none());
    assert!(iter.next().is_none());
}

#[test]
fn extraction_is_planned_by_cluster() {
    let good = v61();
    let (_, eighth) = dirent_at(&good, 8);
    let raw = patched(&good, eighth, &[0xc8, 0x00]);
    let zim = open(&raw);
    let plan = zim.plan_extraction();

    assert_eq!(
        plan.by_cluster,
        vec![
            (0, vec![1, 2, 3, 4, 5, 6, 7, 9, 10, 11]),
            (1, vec![0, 13, 14, 15])
        ]
    );
    assert_eq!(plan.redirects, vec![12]);
    assert_eq!(plan.unreadable.len(), 1);
    assert_eq!(plan.unreadable[0].0, 8);
    assert!(matches!(plan.unreadable[0].1, Error::UnknownMimeType));

    let mut cluster = zim.get_cluster(0).unwrap();
    let guard = cluster.read().unwrap();
    match zim.extract_entry(&guard, 1) {
        Extracted::File(entry, contents) => {
            assert_eq!(entry.url, "main.html");
            assert_eq!(contents.unwrap(), b"<p>main</p>");
        }
        _ => panic!("entry 1 has contents"),
    }
    assert!(matches!(
        zim.extract_entry(&guard, 8),
        Extracted::Unreadable(Error::UnknownMimeType)
    ));
    assert!(matches!(zim.extract_entry(&guard, 12), Extracted::Nothing));
    assert!(matches!(
        zim.extract_entry(&guard, 99),
        Extracted::Unreadable(Error::OutOfBounds)
    ));
}

#[test]
fn compressions_are_listed_once() {
    let raw = v62();
    let zim = open(&raw);
    assert_eq!(
        zim.compressions().unwrap(),
        vec![Compression::Zstd, Compression::Uncompressed]
    );

    let raw = v61();
    let (_, second) = cluster_at(&raw, 1);
    let broken = patched(&raw, second, &[3]);
    assert!(matches!(
        open(&broken).compressions(),
        Err(Error::UnsupportedCompression(3))
    ));
}

#[test]
fn archives_without_entries_are_readable() {
    let raw = build(&Spec {
        version: (6, 1),
        items: Vec::new(),
        clusters: Vec::new(),
        title_pointer: TitlePointer::Absent,
        main_page: None,
    });
    let zim = open(&raw);
    assert!(zim.main_page().unwrap().is_none());
    assert!(zim.metadata_keys().unwrap().is_empty());
    assert!(zim.iterate_by_urls().next().is_none());
    assert!(zim.compressions().unwrap().is_empty());
    zim.verify_checksum().unwrap();
}
