//! The key-value store that a server keeps behind its connections.
use vstd::prelude::*;
use vstd::hash_map::StringHashMap;
use crate::frame::{copy_bytes, Frame, SpecFrame};

verus! {

/// What a client asks of the store.
pub enum Command {
    /// The value stored under `key`, if any.
    Get { key: String },
    /// Store `value` under `key`, replacing what was there.
    Put { key: String, value: Vec<u8> },
}

/// A map from string keys to byte strings.
pub struct Db {
    entries: StringHashMap<Vec<u8>>,
}

impl Db {
    /// The keys and the bytes stored under them.
    pub closed spec fn contents(&self) -> Map<Seq<char>, Seq<u8>> {
        self.entries@.map_values(|v: Vec<u8>| v@)
    }

    /// An empty store.
    pub fn new() -> (db: Self)
        ensures
            db.contents() == Map::<Seq<char>, Seq<u8>>::empty(),
    {
        let db = Db { entries: StringHashMap::new() };
        assert(db.contents() =~= Map::<Seq<char>, Seq<u8>>::empty());
        db
    }

    /// Carries out a command and gives the frame that answers it: `OK` to a
    /// `Put` (the SET command), and to a `Get` the stored bytes, or `Null`
    /// for a key that holds nothing.
    pub fn handle(&mut self, command: Command) -> (response: Frame)
        ensures
            match command {
                Command::Put { key, value } => {
                    &&& final(self).contents() == old(self).contents().insert(key@, value@)
                    &&& response@ == SpecFrame::Simple("OK"@)
                },
                Command::Get { key } => {
                    &&& final(self).contents() == old(self).contents()
                    &&& response@ == if old(self).contents().contains_key(key@) {
                        SpecFrame::Bulk(old(self).contents()[key@])
                    } else {
                        SpecFrame::Null
                    }
                },
            },
    {
        match command {
            Command::Put { key, value } => {
                let ghost k = key@;
                let ghost v = value@;
                self.entries.insert(key, value);
                assert(self.contents() =~= old(self).contents().insert(k, v));
                Frame::Simple("OK".to_string())
            },
            Command::Get { key } => {
                match self.entries.get(key.as_str()) {
                    Some(value) => Frame::Bulk(copy_bytes(value.as_slice())),
                    None => Frame::Null,
                }
            },
        }
    }
}

/// What a `Get` answers after a `Put` of the same key: the bytes that were
/// set; the `Put` of another key leaves what a `Get` answers as it was.
pub proof fn law_get_after_set(
    contents: Map<Seq<char>, Seq<u8>>,
    key: Seq<char>,
    value: Seq<u8>,
    other: Seq<char>,
)
    requires
        other != key,
    ensures
        contents.insert(key, value).contains_key(key),
        contents.insert(key, value)[key] == value,
        contents.insert(key, value).contains_key(other) == contents.contains_key(other),
        contents.contains_key(other) ==> contents.insert(key, value)[other] == contents[other],
{
}

} // verus!
