use log_producer::model::{Log, LogGroup, LogGroupList, Pair};

fn group_with(time: u32, pairs: &[(&str, &str)]) -> LogGroup {
    let mut log = Log::new(time);
    for (k, v) in pairs {
        log.push(Pair::new(k, v));
    }
    LogGroup::new(vec![log])
}

#[test]
fn encode_single_pair_exact_bytes() {
    let group = group_with(1, &[("a", "b")]);
    let bytes = group.encode();
    assert_eq!(bytes, vec![10, 10, 8, 1, 18, 6, 10, 1, 97, 18, 1, 98]);
}

#[test]
fn empty_group_encodes_to_zero_bytes() {
    let group = LogGroup::new(Vec::new());
    let bytes = group.encode();
    assert_eq!(bytes.len(), 0);
}

#[test]
fn group_with_topic_still_emits_topic() {
    // Only a group with no logs, no tags, no topic and no source is empty.
    let mut group = LogGroup::new(Vec::new());
    group.set_topic("t");
    assert_eq!(group.encode(), vec![26, 1, 116]);
}

#[test]
fn empty_strings_still_encode_length_bytes() {
    let group = group_with(0, &[("", "")]);
    // Log: time 0, one pair of two empty strings (tag + 0x00 each).
    assert_eq!(group.encode(), vec![10, 8, 8, 0, 18, 4, 10, 0, 18, 0]);
}

#[test]
fn log_with_no_contents_still_encodes_time() {
    let group = group_with(7, &[]);
    assert_eq!(group.encode(), vec![10, 2, 8, 7]);
}

#[test]
fn topic_source_and_tags_in_tag_order() {
    let mut group = group_with(1, &[]);
    group.set_topic("t");
    group.set_source("s");
    group.push_tag(Pair::new("k", "v"));
    let bytes = group.encode();
    let expected = vec![
        10, 2, 8, 1, // logs[0]: time 1
        26, 1, 116, // topic "t"
        34, 1, 115, // source "s"
        50, 6, 10, 1, 107, 18, 1, 118, // log_tags[0]: k/v
    ];
    assert_eq!(bytes, expected);
}

#[test]
fn varint_encoding_of_multi_byte_values() {
    // time 300 needs a two-byte varint: 0xAC 0x02.
    let group = group_with(300, &[]);
    assert_eq!(group.encode(), vec![10, 3, 8, 172, 2]);
}

#[test]
fn get_size_equals_encoded_length() {
    let samples = vec![
        LogGroup::new(Vec::new()),
        group_with(0, &[]),
        group_with(300, &[("key", "value"), ("key", "other")]),
        {
            let mut g = group_with(u32::MAX, &[("x", ""), ("", "y")]);
            g.set_topic("topic");
            g.set_source("source");
            g.push_tag(Pair::new("tag", "one"));
            g.push_tag(Pair::new("tag", "two"));
            g
        },
    ];
    for g in samples {
        assert_eq!(g.get_size(), g.encode().len());
    }
}

#[test]
fn pair_and_log_sizes_match_their_encodings() {
    let pair = Pair::new("abc", "defgh");
    let mut pair_bytes = Vec::new();
    pair.write_message(&mut pair_bytes);
    assert_eq!(pair.get_size(), pair_bytes.len());
    assert_eq!(pair_bytes, vec![10, 3, 97, 98, 99, 18, 5, 100, 101, 102, 103, 104]);

    let mut log = Log::new(2);
    log.push(Pair::new("abc", "defgh"));
    let mut log_bytes = Vec::new();
    log.write_message(&mut log_bytes);
    assert_eq!(log.get_size(), log_bytes.len());
}

#[test]
fn group_list_encodes_each_group_at_tag_one() {
    let list = LogGroupList { log_group_list: vec![LogGroup::new(Vec::new()), group_with(7, &[])] };
    let mut bytes = Vec::new();
    list.write_message(&mut bytes);
    assert_eq!(bytes, vec![10, 0, 10, 4, 10, 2, 8, 7]);
    assert_eq!(list.get_size(), bytes.len());
}

#[test]
fn into_owned_preserves_values() {
    let pair = Pair::new("k", "v").into_owned();
    assert_eq!(pair.key, "k");
    assert_eq!(pair.value, "v");

    let mut log = Log::new(5);
    log.push(Pair::new("k", "v"));
    let owned = log.into_owned();
    assert_eq!(owned.time(), 5);
    assert_eq!(owned.contents().len(), 1);

    let mut group = LogGroup::new(vec![owned]);
    group.set_topic("t");
    let owned_group = group.into_owned();
    assert_eq!(owned_group.topic.as_deref(), Some("t"));
    assert_eq!(owned_group.logs.len(), 1);
}

#[test]
fn default_log_has_no_contents() {
    let log = Log::default();
    assert_eq!(log.contents().len(), 0);
}
