use misato::contact::sanitize_book;
use misato::io::{
    default_artbook_roots, file_name, file_stem, group_by_page, image_mime, is_image, page_record, short_path,
    sort_pages, Page,
};

#[test]
fn image_extensions_any_case() {
    assert!(is_image("/art/book/p020_i049.jpg"));
    assert!(is_image("page.JPEG"));
    assert!(is_image("page.Jpg"));
    assert!(!is_image("scan.png"));
    assert!(!is_image("plate.tif"));
    assert!(!is_image("plate.TIFF"));
    assert!(!is_image("notes.txt"));
    assert!(!is_image("anim.gif"));
    assert!(!is_image("jpg"));
}

#[test]
fn image_extension_edge_cases() {
    // A leading dot starts a hidden name, not an extension.
    assert!(!is_image(".jpg"));
    assert!(is_image(".hidden.jpg"));
    assert!(!is_image("a/.."));
    assert!(!is_image("archive.jpg.zip"));
    // The file name of "dir.jpg/" is "dir.jpg".
    assert!(is_image("dir.jpg/"));
    assert!(!is_image("photo."));
}

#[test]
fn mime_by_extension() {
    assert_eq!(image_mime("/a/b/p.PNG"), "image/png");
    assert_eq!(image_mime("p.tif"), "image/tiff");
    assert_eq!(image_mime("p.Tiff"), "image/tiff");
    assert_eq!(image_mime("p.jpg"), "image/jpeg");
    assert_eq!(image_mime("p"), "image/jpeg");
    assert_eq!(image_mime("p.gif"), "image/jpeg");
}

#[test]
fn file_names() {
    assert_eq!(file_name("a/b.jpg"), Some("b.jpg".to_string()));
    assert_eq!(file_name("/mnt/art/Der Mond"), Some("Der Mond".to_string()));
    assert_eq!(file_name("a/b/"), Some("b".to_string()));
    assert_eq!(file_name("a/./"), Some("a".to_string()));
    assert_eq!(file_name("/"), None);
    assert_eq!(file_name(""), None);
    assert_eq!(file_name(".."), None);
    assert_eq!(file_name("a/.."), None);
    assert_eq!(file_name("."), None);
}

#[test]
fn short_paths() {
    assert_eq!(short_path("/mnt/art/Die Sterne/p020_i049.jpg"), "Die Sterne/p020_i049.jpg");
    assert_eq!(short_path("p.jpg"), "/p.jpg");
    assert_eq!(short_path("/p.jpg"), "/p.jpg");
    assert_eq!(short_path("a//b///c.png"), "b/c.png");
    assert_eq!(short_path("a/b/"), "a/b");
    assert_eq!(short_path("a/.."), "a/a/..");
    assert_eq!(short_path("/"), "//");
    assert_eq!(short_path(""), "/");
}

#[test]
fn page_records() {
    let p = page_record("/art/Der Mond", "/art/Der Mond/sub/p1.jpg");
    assert_eq!(p.book, "Der Mond");
    assert_eq!(p.path, "/art/Der Mond/sub/p1.jpg");
    assert_eq!(p.filename, "p1.jpg");
    let q = page_record("/", "/x.jpg");
    assert_eq!(q.book, "unknown");
    assert_eq!(q.filename, "x.jpg");
}

#[test]
fn artbook_roots() {
    let r = default_artbook_roots();
    assert_eq!(r.len(), 4);
    assert_eq!(r[0], "/mnt/smb/media/art/Neon.Genesis.Evangelion.Artbook.-.Die.Sterne[GAINAX]");
    assert_eq!(r[1], "/mnt/smb/media/art/Neon Genesis Evangelion - Der Mond");
    assert_eq!(r[2], "/mnt/smb/media/art/Neon Genesis Evangelion - Groundwork of Evangelion Vol.1");
    assert_eq!(r[3], "/mnt/smb/media/art/Neon Genesis Evangelion - Groundwork of Evangelion Vol.2");
}

fn page(book: &str, filename: &str, path: &str) -> Page {
    Page { book: book.to_string(), path: path.to_string(), filename: filename.to_string() }
}

#[test]
fn pages_sort_by_book_then_file_stably() {
    let pages = vec![
        page("b", "2.jpg", "x"),
        page("a", "9.jpg", "y"),
        page("b", "1.jpg", "z"),
        page("a", "9.jpg", "w"),
        page("B", "5.jpg", "v"),
    ];
    let sorted = sort_pages(pages);
    let got: Vec<(String, String, String)> =
        sorted.into_iter().map(|p| (p.book, p.filename, p.path)).collect();
    let want: Vec<(String, String, String)> = vec![
        ("B", "5.jpg", "v"),
        ("a", "9.jpg", "y"),
        ("a", "9.jpg", "w"),
        ("b", "1.jpg", "z"),
        ("b", "2.jpg", "x"),
    ]
    .into_iter()
    .map(|(a, b, c)| (a.to_string(), b.to_string(), c.to_string()))
    .collect();
    assert_eq!(got, want);
}

#[test]
fn pages_group_by_book_and_file() {
    let keys: Vec<(String, String)> = vec![
        ("B".to_string(), "2".to_string()),
        ("A".to_string(), "1".to_string()),
        ("B".to_string(), "2".to_string()),
        ("A".to_string(), "3".to_string()),
    ];
    let groups = group_by_page(&keys);
    assert_eq!(
        groups,
        vec![
            ("A".to_string(), "1".to_string(), vec![1]),
            ("A".to_string(), "3".to_string(), vec![3]),
            ("B".to_string(), "2".to_string(), vec![0, 2]),
        ]
    );
    assert!(group_by_page(&Vec::new()).is_empty());
}

#[test]
fn book_names_for_files() {
    assert_eq!(
        sanitize_book("Neon.Genesis.Evangelion.Artbook.-.Die.Sterne[GAINAX]"),
        "Neon_Genesis_Evangelion_Artb"
    );
    assert_eq!(sanitize_book("Der Mond"), "Der_Mond");
    assert_eq!(sanitize_book("a/b\\c"), "a_b_c");
    assert_eq!(sanitize_book(""), "");
}

#[test]
fn file_stems() {
    assert_eq!(file_stem("/a/p020_i049.jpg"), Some("p020_i049".to_string()));
    assert_eq!(file_stem("a/archive.tar.gz"), Some("archive.tar".to_string()));
    assert_eq!(file_stem("a/.hidden"), Some(".hidden".to_string()));
    assert_eq!(file_stem("a/.hidden.jpg"), Some(".hidden".to_string()));
    assert_eq!(file_stem("a/noext"), Some("noext".to_string()));
    assert_eq!(file_stem("a/photo."), Some("photo".to_string()));
    assert_eq!(file_stem("a/.."), None);
    assert_eq!(file_stem("/"), None);
}
