use paper_store::codec::{decode_payload, encode_fields, encode_payload, DecodeError, Payload};
use paper_store::data::Data;
use paper_store::ident::derive_id;
use paper_store::paper::{self, Paper, Status};
use paper_store::world::World;

fn papers_world() -> World<Paper> {
    let width: u64 = 576460752303423488;
    let mut d0: Vec<u64> = Vec::new();
    for i in 0..32u64 {
        let end = if i == 31 { u64::MAX } else { (i + 1) * width - 1 };
        d0.push(end);
    }
    let d1: Vec<u64> = vec![0u64, u64::MAX];
    World::new(vec![d0, d1]).unwrap()
}

fn sample_paper(name: &str, info: &str, email: Option<&str>) -> Paper {
    Paper::from_in(paper::In {
        name: name.to_string(),
        info: info.to_string(),
        email: email.map(|e| e.to_string()),
    })
}

#[test]
fn derive_id_is_deterministic() {
    let a = derive_id("Yjn024", "Hello, world!", &None);
    let b = derive_id("Yjn024", "Hello, world!", &None);
    assert_eq!(a, b);
    let with_mail = derive_id("Yjn024", "Hello, world!", &Some("a@b.cd".to_string()));
    assert_eq!(with_mail, derive_id("Yjn024", "Hello, world!", &Some("a@b.cd".to_string())));
    assert_ne!(a, derive_id("Hello, world!", "Yjn024", &None));
    assert_ne!(a, with_mail);
}

#[test]
fn payload_round_trip() {
    let bytes = encode_fields("ünïcode name", "a body\nwith lines", &Some("x@y.zz".to_string()), 1700000000);
    let p: Payload = decode_payload(&bytes).unwrap();
    assert_eq!(p.name, "ünïcode name");
    assert_eq!(p.info, "a body\nwith lines");
    assert_eq!(p.email.as_deref(), Some("x@y.zz"));
    assert_eq!(p.time, 1700000000);

    let negative = encode_fields("", "", &None, -1);
    let q: Payload = decode_payload(&negative).unwrap();
    assert_eq!(q.name, "");
    assert_eq!(q.info, "");
    assert!(q.email.is_none());
    assert_eq!(q.time, -1);

    let owned = Payload {
        name: "n".to_string(),
        info: "i".to_string(),
        email: None,
        time: 42,
    };
    let owned_bytes = encode_payload(&owned);
    assert_eq!(owned_bytes, encode_fields("n", "i", &None, 42));
    let r = decode_payload(&owned_bytes).unwrap();
    assert_eq!(r.name, "n");
    assert_eq!(r.time, 42);
}

#[test]
fn record_round_trip_per_version() {
    let rec = sample_paper("author", "content", Some("a@b.cd"));
    let bytes = rec.encode();
    let dims: Vec<u64> = vec![rec.pid, 0];
    let back = Paper::decode(1, &dims, &bytes).unwrap();
    assert_eq!(back.name, rec.name);
    assert_eq!(back.info, rec.info);
    assert_eq!(back.email, rec.email);
    assert_eq!(back.time, rec.time);
    assert_eq!(back.pid, rec.pid);
    assert_eq!(back.status, Status::Pending);

    let approved_dims: Vec<u64> = vec![rec.pid, 1];
    let approved = Paper::decode(1, &approved_dims, &bytes).unwrap();
    assert_eq!(approved.status, Status::Approved);
}

#[test]
fn decode_rejects_unknown_version() {
    let rec = sample_paper("author", "content", None);
    let bytes = rec.encode();
    let dims: Vec<u64> = vec![rec.pid, 0];
    assert_eq!(Paper::decode(2, &dims, &bytes).err(), Some(DecodeError::UnknownVersion));
}

#[test]
fn decode_rejects_malformed_bytes() {
    let dims: Vec<u64> = vec![7, 0];
    assert_eq!(Paper::decode(1, &dims, &[1, 2, 3]).err(), Some(DecodeError::Malformed));

    let good = sample_paper("ab", "c", None).encode();
    let mut truncated = good.clone();
    truncated.pop();
    assert_eq!(Paper::decode(1, &dims, &truncated).err(), Some(DecodeError::Malformed));

    let mut trailing = good;
    trailing.push(0);
    assert_eq!(Paper::decode(1, &dims, &trailing).err(), Some(DecodeError::Malformed));
}

#[test]
fn decode_rejects_invalid_utf8() {
    // name of length 1 whose byte is not valid UTF-8, empty info, no email
    let mut bytes: Vec<u8> = Vec::new();
    bytes.extend_from_slice(&1u64.to_le_bytes());
    bytes.push(0xff);
    bytes.extend_from_slice(&0u64.to_le_bytes());
    bytes.push(0);
    bytes.extend_from_slice(&0u64.to_le_bytes());
    assert_eq!(decode_payload(&bytes).err(), Some(DecodeError::Malformed));
}

#[test]
fn world_rejects_bad_partition_bounds() {
    // wrong dimension count
    assert!(World::<Paper>::new(vec![vec![u64::MAX]]).is_none());
    // bounds not ending at the top of the axis
    assert!(World::<Paper>::new(vec![vec![17], vec![0, u64::MAX]]).is_none());
    // not strictly increasing
    assert!(World::<Paper>::new(vec![vec![9, 9, u64::MAX], vec![0, u64::MAX]]).is_none());
    // empty dimension
    assert!(World::<Paper>::new(vec![vec![], vec![0, u64::MAX]]).is_none());
    // a well-formed configuration passes
    assert!(World::<Paper>::new(vec![vec![u64::MAX], vec![0, u64::MAX]]).is_some());
}

#[test]
fn chunk_persistence_round_trip() {
    let mut w = papers_world();
    let a = sample_paper("author one", "first", None);
    let b = sample_paper("author two", "second", Some("t@u.vw"));
    let (pid_a, pid_b) = (a.pid, b.pid);
    w.insert(a);
    w.insert(b);

    let dirty = w.dirty_chunks();
    assert!(!dirty.is_empty());

    let mut images: Vec<Vec<u8>> = Vec::new();
    for &c in &dirty {
        images.push(w.encode_chunk(c));
        w.mark_clean(c);
    }
    assert!(w.dirty_chunks().is_empty());

    let mut fresh = papers_world();
    let mut loaded = 0;
    for image in &images {
        loaded += fresh.load_chunk(image).unwrap();
    }
    assert_eq!(loaded, 2);

    for pid in [pid_a, pid_b] {
        let mut hs = fresh.select(0, pid).hint(pid).candidates(&fresh);
        assert_eq!(hs.len(), 1);
        let got = hs[0].get(&fresh).unwrap();
        assert_eq!(got.pid, pid);
    }
    let one = fresh.select(0, pid_b).candidates(&fresh).remove(0).get(&fresh).unwrap();
    assert_eq!(one.name, "author two");
    assert_eq!(one.info, "second");
    assert_eq!(one.email.as_deref(), Some("t@u.vw"));
}

#[test]
fn load_rejects_corrupt_chunk() {
    let mut w = papers_world();
    w.insert(sample_paper("author", "content", None));
    let c = w.dirty_chunks()[0];
    let mut image = w.encode_chunk(c);
    image.truncate(image.len() - 1);

    let mut fresh = papers_world();
    assert_eq!(fresh.load_chunk(&image).err(), Some(DecodeError::Malformed));
    assert_eq!(fresh.select_all().candidates(&fresh).len(), 0);
}

#[test]
fn load_skips_undecodable_record() {
    let mut w = papers_world();
    let good = sample_paper("author", "survives", None);
    let pid = good.pid;
    w.insert(good);
    let c = w.dirty_chunks()[0];
    let mut image = w.encode_chunk(c);

    // append a well-framed entry whose version tag no decoder knows:
    // version 9, a two-value dimension tuple, a length-prefixed payload
    image.extend_from_slice(&9u32.to_le_bytes());
    image.extend_from_slice(&1u64.to_le_bytes());
    image.extend_from_slice(&0u64.to_le_bytes());
    image.extend_from_slice(&3u64.to_le_bytes());
    image.extend_from_slice(&[1, 2, 3]);

    let mut fresh = papers_world();
    assert_eq!(fresh.load_chunk(&image), Ok(1));
    let mut hs = fresh.select(0, pid).candidates(&fresh);
    assert_eq!(hs.len(), 1);
    assert_eq!(hs[0].get(&fresh).unwrap().info, "survives");
}

#[test]
fn insert_returns_previous() {
    let mut w = papers_world();
    let first = sample_paper("author", "same content", None);
    let pid = first.pid;
    assert!(w.insert(first).is_none());
    let second = sample_paper("author", "same content", None);
    let prev = w.insert(second).expect("previous record returned");
    assert_eq!(prev.pid, pid);
    assert_eq!(w.select(0, pid).candidates(&w).len(), 1);
}

#[test]
fn random_choice_reaches_single_record() {
    let mut w = papers_world();
    let mut a = sample_paper("author", "the only approved one", None);
    a.status = Status::Approved;
    let pid = a.pid;
    w.insert(a);
    for _ in 0..8 {
        let got = paper::get(&w).unwrap();
        assert_eq!(got.pid, pid);
        assert_eq!(got.info, "the only approved one");
    }
}
