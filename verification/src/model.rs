//! The log record model: a `Pair` of key/value text, a timestamped `Log`
//! holding an ordered list of pairs, a `LogGroup` with optional topic and
//! source metadata plus tags, and a `LogGroupList`.
//!
//! All text is owned. The wire format at tag 2 of `LogGroup` is reserved
//! and never populated, so the model has no field for it.
use vstd::prelude::*;

verus! {

/// Mathematical view of a `Pair`.
#[verifier::ext_equal]
pub ghost struct PairV {
    pub key: Seq<char>,
    pub value: Seq<char>,
}

/// Mathematical view of a `Log`.
#[verifier::ext_equal]
pub ghost struct LogV {
    pub time: u32,
    pub contents: Seq<PairV>,
}

/// Mathematical view of a `LogGroup`.
#[verifier::ext_equal]
pub ghost struct LogGroupV {
    pub logs: Seq<LogV>,
    pub topic: Option<Seq<char>>,
    pub source: Option<Seq<char>>,
    pub log_tags: Seq<PairV>,
}

/// One key/value unit, used both for log field contents and for tags.
/// Both fields are UTF-8 text; keys may repeat within a log.
pub struct Pair {
    pub key: String,
    pub value: String,
}

impl View for Pair {
    type V = PairV;

    open spec fn view(&self) -> PairV {
        PairV { key: self.key@, value: self.value@ }
    }
}

pub open spec fn pairs_view(s: Seq<Pair>) -> Seq<PairV> {
    s.map_values(|p: Pair| p@)
}

/// A log's content entry is a pair.
pub type Content = Pair;

/// A group tag is a pair.
pub type LogTag = Pair;

impl Pair {
    pub fn new(key: &str, value: &str) -> (r: Self)
        ensures
            r@ == (PairV { key: key@, value: value@ }),
    {
        Pair { key: key.to_owned(), value: value.to_owned() }
    }

    /// Total conversion to the owned form; all text here is already owned,
    /// so the value is returned unchanged.
    pub fn into_owned(self) -> (r: Self)
        ensures
            r@ == self@,
    {
        self
    }
}

/// A timestamped set of key/value pairs. `time` is a 32-bit UNIX timestamp
/// and is always emitted on the wire; the order of `contents` is preserved.
pub struct Log {
    pub time: u32,
    pub contents: Vec<Pair>,
}

impl View for Log {
    type V = LogV;

    open spec fn view(&self) -> LogV {
        LogV { time: self.time, contents: pairs_view(self.contents@) }
    }
}

pub open spec fn logs_view(s: Seq<Log>) -> Seq<LogV> {
    s.map_values(|l: Log| l@)
}

impl Log {
    pub fn new(time: u32) -> (r: Self)
        ensures
            r@ == (LogV { time, contents: Seq::<PairV>::empty() }),
    {
        let r = Log { time, contents: Vec::new() };
        proof {
            assert(r@.contents =~= Seq::<PairV>::empty());
        }
        r
    }

    pub fn into_owned(self) -> (r: Self)
        ensures
            r@ == self@,
    {
        self
    }

    pub fn time(&self) -> (r: u32)
        ensures
            r == self@.time,
    {
        self.time
    }

    pub fn contents(&self) -> (r: &Vec<Pair>)
        ensures
            pairs_view(r@) == self@.contents,
    {
        &self.contents
    }

    /// Appends one content pair.
    pub fn push(&mut self, content: Pair)
        ensures
            final(self)@.time == old(self)@.time,
            final(self)@.contents == old(self)@.contents.push(content@),
    {
        let ghost c = content@;
        self.contents.push(content);
        proof {
            assert(pairs_view(self.contents@) =~= pairs_view(old(self).contents@).push(c));
        }
    }
}

impl Default for Log {
    /// A log stamped with the current time and no contents.
    fn default() -> (r: Self)
        ensures
            r@.contents == Seq::<PairV>::empty(),
    {
        Log::new(crate::clock::now_unix_u32())
    }
}

/// An ordered group of logs with optional topic and source and a list of
/// tags, the unit that is encoded and submitted.
pub struct LogGroup {
    pub logs: Vec<Log>,
    pub topic: Option<String>,
    pub source: Option<String>,
    pub log_tags: Vec<Pair>,
}

impl View for LogGroup {
    type V = LogGroupV;

    open spec fn view(&self) -> LogGroupV {
        LogGroupV {
            logs: logs_view(self.logs@),
            topic: match self.topic {
                Some(t) => Some(t@),
                None => None,
            },
            source: match self.source {
                Some(s) => Some(s@),
                None => None,
            },
            log_tags: pairs_view(self.log_tags@),
        }
    }
}

pub open spec fn groups_view(s: Seq<LogGroup>) -> Seq<LogGroupV> {
    s.map_values(|g: LogGroup| g@)
}

impl LogGroup {
    pub fn new(logs: Vec<Log>) -> (r: Self)
        ensures
            r@ == (LogGroupV {
                logs: logs_view(logs@),
                topic: None,
                source: None,
                log_tags: Seq::<PairV>::empty(),
            }),
    {
        let r = LogGroup { logs, topic: None, source: None, log_tags: Vec::new() };
        proof {
            assert(r@.log_tags =~= Seq::<PairV>::empty());
        }
        r
    }

    pub fn into_owned(self) -> (r: Self)
        ensures
            r@ == self@,
    {
        self
    }

    pub fn set_topic(&mut self, topic: &str)
        ensures
            final(self)@ == (LogGroupV { topic: Some(topic@), ..old(self)@ }),
    {
        self.topic = Some(topic.to_owned());
    }

    pub fn set_source(&mut self, source: &str)
        ensures
            final(self)@ == (LogGroupV { source: Some(source@), ..old(self)@ }),
    {
        self.source = Some(source.to_owned());
    }

    /// Appends one tag.
    pub fn push_tag(&mut self, tag: Pair)
        ensures
            final(self)@ == (LogGroupV {
                log_tags: old(self)@.log_tags.push(tag@),
                ..old(self)@
            }),
    {
        let ghost t = tag@;
        self.log_tags.push(tag);
        proof {
            assert(pairs_view(self.log_tags@) =~= pairs_view(old(self).log_tags@).push(t));
        }
    }
}

/// An ordered list of log groups; completes the wire model, though the send
/// path submits one group per call.
pub struct LogGroupList {
    pub log_group_list: Vec<LogGroup>,
}

impl View for LogGroupList {
    type V = Seq<LogGroupV>;

    open spec fn view(&self) -> Seq<LogGroupV> {
        groups_view(self.log_group_list@)
    }
}

impl Default for LogGroupList {
    fn default() -> (r: Self)
        ensures
            r@ == Seq::<LogGroupV>::empty(),
    {
        let r = LogGroupList { log_group_list: Vec::new() };
        proof {
            assert(r@ =~= Seq::<LogGroupV>::empty());
        }
        r
    }
}

} // verus!
