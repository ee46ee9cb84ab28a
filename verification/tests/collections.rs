use crev_lib::bytes::{copy_bytes, rank_bytes, same_text, Rank};
use crev_lib::id::{Digest, Id, PubId, Url};
use crev_lib::listing::Listed;
use crev_lib::ordset::{OrdSet, Ordered};
use crev_lib::timestamp::{Timestamp, Timestamped};
use crev_lib::trust_set::{walk, Visit};
use crev_lib::record::TrustLevel;
use crev_lib::trustdb::TrustDistanceParams;
use crev_lib::vecmap::{Key, VecMap};

#[test]
fn rank_bytes_is_lexicographic() {
    assert_eq!(rank_bytes(b"", b""), Rank::Same);
    assert_eq!(rank_bytes(b"", b"a"), Rank::Before);
    assert_eq!(rank_bytes(b"a", b""), Rank::After);
    assert_eq!(rank_bytes(b"abc", b"abd"), Rank::Before);
    assert_eq!(rank_bytes(b"abc", b"abc"), Rank::Same);
    assert_eq!(rank_bytes(b"abc", b"ab"), Rank::After);
    assert_eq!(rank_bytes(b"b", b"abc"), Rank::After);
    assert_eq!(rank_bytes(&[0, 255], &[1]), Rank::Before);
}

#[test]
fn same_text_and_copy_bytes() {
    assert!(same_text("log", "log"));
    assert!(!same_text("log", "logs"));
    assert!(!same_text("log", "Log"));
    assert!(same_text("", ""));
    assert_eq!(copy_bytes(&[1, 2, 3]), vec![1, 2, 3]);
    assert_eq!(copy_bytes(&[]), Vec::<u8>::new());
}

#[test]
fn strings_are_ordered_by_their_bytes() {
    assert_eq!("a".to_string().rank(&"b".to_string()), Rank::Before);
    assert_eq!("Z".to_string().rank(&"a".to_string()), Rank::Before);
    assert_eq!("ab".to_string().rank(&"a".to_string()), Rank::After);
    assert_eq!("é".to_string().rank(&"z".to_string()), Rank::After);
    assert_eq!("same".to_string().rank(&"same".to_string()), Rank::Same);
}

#[test]
fn keys_are_compared_by_what_they_hold() {
    assert!(vec![1u8, 2].key_eq(&vec![1, 2]));
    assert!(!vec![1u8, 2].key_eq(&vec![1]));
    assert!("a".to_string().key_eq(&"a".to_string()));
    assert!(("a".to_string(), "b".to_string()).key_eq(&("a".to_string(), "b".to_string())));
    assert!(!("a".to_string(), "b".to_string()).key_eq(&("a".to_string(), "c".to_string())));
    assert!(!("a".to_string(), "b".to_string(), "c".to_string())
        .key_eq(&("a".to_string(), "b".to_string(), "d".to_string())));
    assert!(Id::new(vec![7]).key_eq(&Id::new(vec![7])));
    assert!(!Id::new(vec![7]).key_eq(&Id::new(vec![8])));
}

#[test]
fn ids_urls_and_digests_hold_what_they_are_made_of() {
    let id = Id::new(vec![1, 2]);
    assert_eq!(id.as_slice(), &[1, 2]);
    assert_eq!(id.clone(), id);
    assert_eq!(id.rank(&Id::new(vec![1, 3])), Rank::Before);
    let url = Url::new("https://example.com".to_string());
    assert_eq!(url.url, "https://example.com");
    assert_eq!(url.url_type, "git");
    assert_eq!(url.clone(), url);
    let pub_id = PubId::new(id.clone(), url.clone());
    assert_eq!(pub_id.clone(), PubId { id, url });
    let digest = Digest::from_vec(vec![9, 8]);
    assert_eq!(digest.as_slice(), &[9, 8]);
    assert_eq!(digest.clone().into_vec(), vec![9, 8]);
}

#[test]
fn ordset_keeps_its_elements_in_ascending_order() {
    let mut set: OrdSet<String> = OrdSet::new();
    assert!(set.is_empty());
    assert!(set.insert("pear".to_string()));
    assert!(set.insert("apple".to_string()));
    assert!(set.insert("zebra".to_string()));
    assert!(!set.insert("pear".to_string()));
    assert!(set.insert("fig".to_string()));
    assert_eq!(set.len(), 4);
    assert_eq!(set.get(0), "apple");
    assert_eq!(set.get(1), "fig");
    assert_eq!(set.get(2), "pear");
    assert_eq!(set.get(3), "zebra");
    assert!(set.contains(&"fig".to_string()));
    assert!(!set.contains(&"figs".to_string()));
    assert_eq!(set.pop_first(), Some("apple".to_string()));
    assert_eq!(set.pop_first(), Some("fig".to_string()));
    assert_eq!(set.len(), 2);
    assert_eq!(set.pop_first(), Some("pear".to_string()));
    assert_eq!(set.pop_first(), Some("zebra".to_string()));
    assert_eq!(set.pop_first(), None);
    assert!(set.is_empty());
}

#[test]
fn visits_are_ordered_by_distance_then_id() {
    let visit = |distance: u64, id: &[u8]| Visit { distance, id: Id::new(id.to_vec()) };
    assert_eq!(visit(1, &[9]).rank(&visit(2, &[0])), Rank::Before);
    assert_eq!(visit(2, &[0]).rank(&visit(1, &[9])), Rank::After);
    assert_eq!(visit(1, &[1]).rank(&visit(1, &[2])), Rank::Before);
    assert_eq!(visit(1, &[2]).rank(&visit(1, &[2])), Rank::Same);
    let mut frontier: OrdSet<Visit> = OrdSet::new();
    frontier.insert(visit(5, &[1]));
    frontier.insert(visit(0, &[7]));
    frontier.insert(visit(5, &[0]));
    frontier.insert(visit(0, &[7]));
    assert_eq!(frontier.len(), 3);
    assert_eq!(frontier.pop_first(), Some(visit(0, &[7])));
    assert_eq!(frontier.pop_first(), Some(visit(5, &[0])));
    assert_eq!(frontier.pop_first(), Some(visit(5, &[1])));
}

#[test]
fn listed_reviews_are_ordered_by_date_then_signature() {
    let listed = |secs: i64, nanos: u32, signature: &str| Listed {
        date: Timestamp::new(secs, nanos),
        signature: signature.to_string(),
    };
    assert_eq!(listed(1, 0, "z").rank(&listed(2, 0, "a")), Rank::Before);
    assert_eq!(listed(1, 1, "a").rank(&listed(1, 0, "z")), Rank::After);
    assert_eq!(listed(1, 0, "a").rank(&listed(1, 0, "b")), Rank::Before);
    assert_eq!(listed(1, 0, "a").rank(&listed(1, 0, "a")), Rank::Same);
}

#[test]
fn vecmap_holds_one_value_for_each_key() {
    let mut map: VecMap<String, u64> = VecMap::new();
    assert_eq!(map.len(), 0);
    assert_eq!(map.get(&"a".to_string()), None);
    map.push_new("a".to_string(), 1);
    *map.slot("b".to_string(), 2) += 10;
    *map.slot("a".to_string(), 100) += 10;
    assert_eq!(map.len(), 2);
    assert_eq!(map.get(&"a".to_string()), Some(&11));
    assert_eq!(map.get(&"b".to_string()), Some(&12));
    assert_eq!(map.get(&"c".to_string()), None);
    assert!(map.contains_key(&"b".to_string()));
    assert!(!map.contains_key(&"c".to_string()));
    assert_eq!(map.position(&"a".to_string()), Some(0));
    assert_eq!(map.position(&"b".to_string()), Some(1));
    assert_eq!(map.position(&"c".to_string()), None);
    assert_eq!(map.key_at(1), "b");
    assert_eq!(map.value_at(1), &12);
    *map.value_at_mut(0) = 5;
    assert_eq!(map.get(&"a".to_string()), Some(&5));
}

#[test]
fn timestamps_are_ordered_by_seconds_then_nanoseconds() {
    let t = |secs: i64, nanos: u32| Timestamp::new(secs, nanos);
    assert!(t(1, 999_999_999).is_before(&t(2, 0)));
    assert!(t(-1, 5).is_before(&t(0, 0)));
    assert!(t(1, 0).is_before(&t(1, 1)));
    assert!(!t(1, 1).is_before(&t(1, 1)));
    assert!(!t(2, 0).is_before(&t(1, 999_999_999)));
    assert!(t(1, 999_999_999) < t(2, 0));
    assert_eq!(t(3, 4), Timestamp { secs: 3, nanos: 4 });
}

#[test]
fn update_to_more_recent_takes_strictly_later_statements_only() {
    let mut held = Timestamped::new(Timestamp::new(5, 0), "first");
    held.update_to_more_recent(&Timestamp::new(4, 0), "earlier");
    assert_eq!(held, Timestamped::new(Timestamp::new(5, 0), "first"));
    held.update_to_more_recent(&Timestamp::new(5, 0), "same date");
    assert_eq!(held, Timestamped::new(Timestamp::new(5, 0), "first"));
    held.update_to_more_recent(&Timestamp::new(7, 0), "later");
    assert_eq!(held, Timestamped::new(Timestamp::new(7, 0), "later"));
    held.update_to_more_recent(&Timestamp::new(6, 0), "in between");
    assert_eq!(held, Timestamped::new(Timestamp::new(7, 0), "later"));
}

#[test]
fn insert_into_or_update_to_more_recent_keeps_the_latest_for_each_key() {
    let mut map: VecMap<String, Timestamped<u8>> = VecMap::new();
    let stated = |secs: i64, value: u8| Timestamped::new(Timestamp::new(secs, 0), value);
    stated(2, 20).insert_into_or_update_to_more_recent(&mut map, "a".to_string());
    stated(1, 10).insert_into_or_update_to_more_recent(&mut map, "a".to_string());
    stated(1, 11).insert_into_or_update_to_more_recent(&mut map, "b".to_string());
    stated(3, 30).insert_into_or_update_to_more_recent(&mut map, "b".to_string());
    stated(3, 31).insert_into_or_update_to_more_recent(&mut map, "b".to_string());
    assert_eq!(map.len(), 2);
    assert_eq!(map.get(&"a".to_string()), Some(&stated(2, 20)));
    assert_eq!(map.get(&"b".to_string()), Some(&stated(3, 30)));
}

#[test]
fn timestamped_from_what_was_stated() {
    let level = Timestamped::new(Timestamp::new(1, 2), TrustLevel::Low);
    assert_eq!(level.date, Timestamp::new(1, 2));
    assert_eq!(level.value, TrustLevel::Low);
}

#[test]
fn walk_follows_the_edges_it_is_given() {
    let id = |n: u8| Id::new(vec![n]);
    let mut edges: VecMap<Id, VecMap<Id, Timestamped<TrustLevel>>> = VecMap::new();
    let at = Timestamp::new(0, 0);
    edges.slot(id(1), VecMap::new()).push_new(id(2), Timestamped::new(at, TrustLevel::Medium));
    edges.slot(id(1), VecMap::new()).push_new(id(3), Timestamped::new(at, TrustLevel::Distrust));
    edges.slot(id(2), VecMap::new()).push_new(id(4), Timestamped::new(at, TrustLevel::Low));
    let params = TrustDistanceParams::default();
    let trusted = walk(&edges, &id(1), &params);
    assert_eq!(trusted.len(), 3);
    assert_eq!(trusted.get(0), &id(1));
    assert_eq!(trusted.get(1), &id(2));
    assert_eq!(trusted.get(2), &id(4));
    let near = TrustDistanceParams { max_distance: 5, ..params };
    assert_eq!(walk(&edges, &id(1), &near).len(), 2);
}

#[test]
fn hex_stands_for_bytes() {
    assert_eq!(crev_lib::hex::to_hex(&[]), "");
    assert_eq!(crev_lib::hex::to_hex(&[0, 1, 15, 16, 171, 255]), "00010f10abff");
    assert_eq!(crev_lib::hex::from_hex(""), Some(vec![]));
    assert_eq!(crev_lib::hex::from_hex("00010f10abff"), Some(vec![0, 1, 15, 16, 171, 255]));
    assert_eq!(crev_lib::hex::from_hex("ABcd"), Some(vec![171, 205]));
    assert_eq!(crev_lib::hex::from_hex("abc"), None);
    assert_eq!(crev_lib::hex::from_hex("ag"), None);
    assert_eq!(crev_lib::hex::from_hex("0x"), None);
    assert_eq!(crev_lib::hex::from_hex("é0"), None);
    assert_eq!(crev_lib::hex::digit_value('7'), Some(7));
    assert_eq!(crev_lib::hex::digit_value('F'), Some(15));
    assert_eq!(crev_lib::hex::digit_value('g'), None);
    for byte in 0..=255u8 {
        let text = crev_lib::hex::to_hex(&[byte, 255 - byte]);
        assert_eq!(text.len(), 4);
        assert_eq!(crev_lib::hex::from_hex(&text), Some(vec![byte, 255 - byte]));
    }
}

#[test]
fn ids_and_digests_have_a_text_form() {
    let id = Id::new(vec![0xde, 0xad, 0x01]);
    assert_eq!(id.to_hex(), "dead01");
    assert_eq!(Id::from_hex("dead01"), Some(id));
    assert_eq!(Id::from_hex("DEAD01"), Some(Id::new(vec![0xde, 0xad, 0x01])));
    assert_eq!(Id::from_hex("dead0"), None);
    assert_eq!(Digest::from_vec(vec![1, 2, 254]).to_hex(), "0102fe");
}
