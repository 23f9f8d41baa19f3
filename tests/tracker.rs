use ytorrent::tracker::same_digest;
use ytorrent::{
    announce_url, scrape_url, Client, Error, FileMode, Info, MetaInfo, Node, PieceList, ScrapeFile,
    ScrapeResponse, Sha1Digest, Torrent,
};

fn sample_hash() -> Sha1Digest {
    let mut bytes = [b'a'; 20];
    bytes[0] = 0x00;
    bytes[1] = b' ';
    bytes[2] = 0xff;
    bytes[3] = b'-';
    Sha1Digest::new(bytes)
}

fn sample_torrent(announce: Option<&str>) -> Torrent {
    Torrent {
        meta_info: MetaInfo {
            announce: announce.map(|a| a.to_string()),
            announce_list: None,
            comment: None,
            created_by: None,
            creation_date: None,
            info: Info {
                mode: FileMode::Single { length: 1024 },
                name: Some("test-name".to_string()),
                piece_length: 4096,
                pieces: PieceList(vec![]),
                private: None,
            },
            nodes: Some(vec![Node::new("127.0.0.1".to_string(), 6881)]),
            url_list: None,
        },
        info_hash: sample_hash(),
    }
}

#[test]
fn announce_url_encodes_bytes() {
    let peer_id = [b'1'; 20];
    let url = announce_url("http://tracker/announce", &sample_hash(), &peer_id);
    assert_eq!(
        url,
        format!(
            "http://tracker/announce?info_hash=%00+%FF-{}&peer_id={}&compact=1",
            "a".repeat(16),
            "1".repeat(20)
        )
    );
}

#[test]
fn scrape_url_replaces_first_announce() {
    let url = scrape_url("http://announce.example/announce", &sample_hash());
    assert_eq!(url, format!("http://scrape.example/announce?info_hash=%00+%FF-{}", "a".repeat(16)));
    let url = scrape_url("http://tracker/x", &sample_hash());
    assert!(url.starts_with("http://tracker/x?info_hash="));
}

#[test]
fn client_requests() {
    let client = Client::new(sample_torrent(Some("http://t/announce")));
    let url = client.announce_request(&[b'z'; 20]).unwrap();
    assert!(url.starts_with("http://t/announce?info_hash=%00+%FF-"));
    assert!(url.ends_with("&compact=1"));
    assert!(client.scrape_request().unwrap().starts_with("http://t/scrape?info_hash="));
    let client = Client::new(sample_torrent(None));
    assert!(client.announce_request(&[0; 20]).is_none());
    assert!(client.scrape_request().is_none());
}

#[test]
fn node_fields() {
    let node = Node::new("your.router.node".to_string(), 4804);
    assert_eq!(node.host, "your.router.node");
    assert_eq!(node.port, 4804);
}

#[test]
fn take_scrape_file() {
    let file = ScrapeFile { complete: 3, downloaded: 10, incomplete: 1 };
    let other = Sha1Digest::new([7; 20]);
    let mut response = ScrapeResponse { files: vec![(other, file), (sample_hash(), ScrapeFile { complete: 5, downloaded: 6, incomplete: 7 })] };
    let found = response.take_file(&sample_hash()).unwrap();
    assert_eq!(found, ScrapeFile { complete: 5, downloaded: 6, incomplete: 7 });
    assert_eq!(response.files.len(), 1);
    assert!(matches!(response.take_file(&sample_hash()), Err(Error::Request(_))));
    assert!(same_digest(&other, &Sha1Digest::new([7; 20])));
    assert!(!same_digest(&other, &sample_hash()));
}
