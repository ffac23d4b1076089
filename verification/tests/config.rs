use known_chess::config::{
    default_bind, default_list_url, parse_manifest, Config, Server, Source, Storage,
    DEFAULT_LIST_URL,
};

fn config(book: Option<&str>, server_book: Option<&str>) -> Config {
    Config {
        storage: Storage { downloads: "/srv/chess".to_string(), book: book.map(str::to_string) },
        source: Source::default(),
        server: Server { bind: default_bind(), book: server_book.map(str::to_string) },
        path: "config.toml".to_string(),
    }
}

#[test]
fn defaults() {
    let s = Storage::default();
    assert_eq!(s.downloads, "data");
    assert!(s.book.is_none());
    assert_eq!(s.book_path(), "data/known.book");
    assert_eq!(Source::default().list_url, DEFAULT_LIST_URL);
    assert_eq!(default_list_url(), "https://database.lichess.org/standard/list.txt");
    assert_eq!(Server::default().bind, "0.0.0.0:8080");
    assert!(Server::default().book.is_none());
}

#[test]
fn derived_paths() {
    let c = config(None, None);
    assert_eq!(c.book_path(), "/srv/chess/known.book");
    assert_eq!(c.server_book_path(), "/srv/chess/known.book");
    assert_eq!(c.manifest_path(), "/srv/chess/known.book.sources");
    assert_eq!(c.download_path("a.pgn.zst"), "/srv/chess/a.pgn.zst");
    assert_eq!(c.download_path("/abs/a.pgn.zst"), "/abs/a.pgn.zst");

    let c = config(Some("/books/main.book"), Some("/serve/other.book"));
    assert_eq!(c.book_path(), "/books/main.book");
    assert_eq!(c.server_book_path(), "/serve/other.book");
    assert_eq!(c.manifest_path(), "/books/main.book.sources");
}

#[test]
fn manifest_lines() {
    let names = parse_manifest("a.pgn.zst\n\n  b.pgn.zst \r\n\t\nc.pgn");
    assert_eq!(names, vec!["a.pgn.zst", "b.pgn.zst", "c.pgn"]);
    assert!(parse_manifest("").is_empty());
    assert!(parse_manifest("\n \n").is_empty());
}
