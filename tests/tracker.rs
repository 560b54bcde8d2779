use cratetorrent::tracker::{announce_query, decode_compact_peers, Announce, Event, PeerAddr};

#[test]
fn compact_parse_works() {
    let ip = [1u8, 2, 3, 4];
    let port = 6881u16;
    let mut data = Vec::new();
    data.extend_from_slice(&ip);
    data.extend_from_slice(&port.to_be_bytes());
    let got = decode_compact_peers(&data).unwrap();
    assert_eq!(got, vec![PeerAddr { ip: u32::from_be_bytes(ip), port }]);
}

#[test]
fn compact_lengths_not_multiple_of_six_are_rejected() {
    assert_eq!(decode_compact_peers(&[]), Some(vec![]));
    assert!(decode_compact_peers(&[1, 2, 3, 4, 5]).is_none());
    assert!(decode_compact_peers(&[0; 13]).is_none());
    let twelve = [10, 0, 0, 1, 0x1a, 0xe1, 127, 0, 0, 1, 0, 80];
    let peers = decode_compact_peers(&twelve).unwrap();
    assert_eq!(peers.len(), 2);
    assert_eq!(peers[1], PeerAddr { ip: 0x7f000001, port: 80 });
}

fn lookup<'a>(
    dict: &'a std::collections::HashMap<Vec<u8>, serde_bencode::value::Value>,
    key: &str,
) -> &'a serde_bencode::value::Value {
    dict.get(key.as_bytes()).unwrap()
}

#[test]
fn announce_response_compact_peers() {
    let mut body = Vec::new();
    body.extend_from_slice(b"d8:completei1e10:incompletei2e8:intervali5e5:peers6:");
    body.extend_from_slice(&[10, 0, 0, 1, (6881 >> 8) as u8, (6881 & 0xff) as u8]);
    body.push(b'e');
    let value: serde_bencode::value::Value = serde_bencode::from_bytes(&body).unwrap();
    let dict = match value {
        serde_bencode::value::Value::Dict(d) => d,
        _ => panic!("not a dictionary"),
    };
    assert!(matches!(lookup(&dict, "complete"), serde_bencode::value::Value::Int(1)));
    assert!(matches!(lookup(&dict, "incomplete"), serde_bencode::value::Value::Int(2)));
    assert!(matches!(lookup(&dict, "interval"), serde_bencode::value::Value::Int(5)));
    let peers = match lookup(&dict, "peers") {
        serde_bencode::value::Value::Bytes(b) => decode_compact_peers(b).unwrap(),
        _ => panic!("peers are not a byte string"),
    };
    assert_eq!(peers, vec![PeerAddr { ip: 0x0a000001, port: 6881 }]);
}

fn announce() -> Announce {
    Announce {
        info_hash: [0u8; 20],
        peer_id: *b"-CT0001-abc~def.gh_i",
        port: 6881,
        ip: None,
        downloaded: 0,
        uploaded: 10,
        left: 1234567,
        peer_count: None,
        tracker_id: None,
        event: None,
    }
}

#[test]
fn announce_query_encodes_fixed_parameters() {
    let q = String::from_utf8(announce_query(&announce())).unwrap();
    let zeros = "%00".repeat(20);
    assert_eq!(
        q,
        format!(
            "info_hash={}&peer_id=-CT0001-abc~def.gh_i&port=6881&downloaded=0&uploaded=10&left=1234567&compact=1",
            zeros
        )
    );
}

#[test]
fn announce_query_appends_optional_parameters() {
    let mut a = announce();
    a.info_hash = [0xab; 20];
    a.peer_count = Some(50);
    a.ip = Some("192.168.0.1".to_string());
    a.event = Some(Event::Started);
    a.tracker_id = Some("id 7".to_string());
    let q = String::from_utf8(announce_query(&a)).unwrap();
    assert!(q.starts_with(&format!("info_hash={}&", "%AB".repeat(20))));
    assert!(q.ends_with("&compact=1&numwant=50&ip=192.168.0.1&event=started&trackerid=id%207"));
    a.ip = Some("::1".to_string());
    let q = String::from_utf8(announce_query(&a)).unwrap();
    assert!(q.contains("&ip=%3A%3A1&"));
    a.event = Some(Event::Stopped);
    let q = String::from_utf8(announce_query(&a)).unwrap();
    assert!(q.contains("&event=stopped&"));
    a.event = Some(Event::Completed);
    let q = String::from_utf8(announce_query(&a)).unwrap();
    assert!(q.contains("&event=completed&"));
}
