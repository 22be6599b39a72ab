//! A key-value store that is spoken to in datagrams.
//!
//! A datagram with an equals sign inserts: what stands before the first
//! equals sign is the key, what follows it the value.  A datagram without
//! one retrieves, and is answered.  The key `version` is special: it cannot
//! be written, and reading it gives the version of the store.
//!
//! Every answer is sent under the key `version`, whatever was asked for: an
//! answer reads `version=` and the value found, or `version` alone when
//! nothing is on record for the key.

use crate::text::{lemma_encode_utf8_concat, lossy_text, string_from_utf8_lossy};
use vstd::prelude::*;
use vstd::slice::{slice_subrange, slice_to_vec};
use vstd::string::StringExecFns;
use vstd::utf8::{decode_utf8_encode_utf8, encode_utf8, valid_utf8};

verus! {

/// The byte that parts key and value.
pub const EQUALS: u8 = 0x3d;

/// The key under which the store tells its version: the bytes of
/// `version`.
pub open spec fn version_key() -> Seq<u8> {
    seq![0x76u8, 0x65u8, 0x72u8, 0x73u8, 0x69u8, 0x6fu8, 0x6eu8]
}

/// A datagram, taken apart.
#[derive(Debug, Clone, PartialEq, Eq)]
pub struct Request {
    pub key: Vec<u8>,
    pub value: Option<Vec<u8>>,
}

/// The mathematical value of a [`Request`].
pub struct RequestView {
    pub key: Seq<u8>,
    pub value: Option<Seq<u8>>,
}

impl View for Request {
    type V = RequestView;

    open spec fn view(&self) -> RequestView {
        RequestView {
            key: self.key@,
            value: match self.value {
                Some(value) => Some(value@),
                None => None,
            },
        }
    }
}

/// The index of the first equals sign of `message` from `from` on, or the
/// length of `message` when there is none.
pub open spec fn first_equals(message: Seq<u8>, from: int) -> int
    decreases message.len() - from,
{
    if from >= message.len() {
        message.len() as int
    } else if message[from] == EQUALS {
        from
    } else {
        first_equals(message, from + 1)
    }
}

/// The request that a datagram holds.
pub open spec fn request_of(message: Seq<u8>) -> RequestView {
    let at = first_equals(message, 0);
    if at < message.len() {
        RequestView { key: message.take(at), value: Some(message.skip(at + 1)) }
    } else {
        RequestView { key: message, value: None }
    }
}

/// The datagram that states a request: the key, and after an equals sign
/// the value if there is one, each as text, with a replacement character
/// wherever the bytes are not UTF-8.
pub open spec fn datagram_of(request: RequestView) -> Seq<u8> {
    match request.value {
        Some(value) => encode_utf8(lossy_text(request.key) + "="@ + lossy_text(value)),
        None => encode_utf8(lossy_text(request.key)),
    }
}

/// The bytes of `version`.
pub fn version_key_bytes() -> (key: Vec<u8>)
    ensures
        key@ == version_key(),
{
    let mut key: Vec<u8> = Vec::new();
    key.push(0x76);
    key.push(0x65);
    key.push(0x72);
    key.push(0x73);
    key.push(0x69);
    key.push(0x6f);
    key.push(0x6e);
    proof {
        assert(key@ =~= version_key());
    }
    key
}

/// Whether two byte strings are the same.
fn same_bytes(a: &Vec<u8>, b: &Vec<u8>) -> (same: bool)
    ensures
        same == (a@ == b@),
{
    if a.len() != b.len() {
        return false;
    }
    let mut i: usize = 0;
    while i < a.len()
        invariant
            i <= a@.len(),
            a@.len() == b@.len(),
            forall|k: int| 0 <= k < i ==> a@[k] == b@[k],
        decreases a@.len() - i,
    {
        if a[i] != b[i] {
            return false;
        }
        i += 1;
    }
    proof {
        assert(a@ =~= b@);
    }
    true
}

/// Takes a datagram apart at its first equals sign.
pub fn parse_request(message: &[u8]) -> (request: Request)
    ensures
        request@ == request_of(message@),
{
    let len: usize = message.len();
    let mut at: usize = 0;
    while at < len
        invariant
            at <= len,
            len == message@.len(),
            first_equals(message@, 0) == first_equals(message@, at as int),
        decreases len - at,
    {
        if message[at] == EQUALS {
            let key = slice_to_vec(slice_subrange(message, 0, at));
            let value = slice_to_vec(slice_subrange(message, at + 1, len));
            proof {
                assert(key@ =~= message@.take(at as int));
                assert(value@ =~= message@.skip(at + 1));
            }
            return Request { key, value: Some(value) };
        }
        at += 1;
    }
    Request { key: slice_to_vec(message), value: None }
}

/// Whether key and value of `request` are UTF-8.
pub open spec fn is_text(request: RequestView) -> bool {
    valid_utf8(request.key) && (request.value matches Some(value) ==> valid_utf8(value))
}

/// The bytes of key and value with an equals sign between them, or of the
/// key alone.
pub open spec fn plain_datagram(request: RequestView) -> Seq<u8> {
    match request.value {
        Some(value) => request.key.push(EQUALS) + value,
        None => request.key,
    }
}

/// The datagram that states `request`.  Where key and value are text, it
/// holds their bytes as they are.
#[verifier::rlimit(50)]
pub fn format_request(request: &Request) -> (datagram: Vec<u8>)
    ensures
        datagram@ == datagram_of(request@),
        is_text(request@) ==> datagram@ == plain_datagram(request@),
{
    let mut text = string_from_utf8_lossy(request.key.as_slice());
    match &request.value {
        Some(value) => {
            let value_text = string_from_utf8_lossy(value.as_slice());
            let ghost key_text = text@;
            text.append("=");
            text.append(value_text.as_str());
            proof {
                reveal_strlit("=");
                assert("="@ =~= seq!['=']);
                assert(text@ == key_text + "="@ + value_text@);
                if is_text(request@) {
                    decode_utf8_encode_utf8(request.key@);
                    decode_utf8_encode_utf8(value@);
                    lemma_encode_utf8_concat(key_text + "="@, value_text@);
                    lemma_encode_utf8_concat(key_text, "="@);
                    lemma_equals_sign();
                    assert(encode_utf8(text@) =~= plain_datagram(request@));
                }
            }
        },
        None => {
            proof {
                if is_text(request@) {
                    decode_utf8_encode_utf8(request.key@);
                }
            }
        },
    }
    slice_to_vec(text.as_str().as_bytes())
}

/// The equals sign is encoded as one byte.
proof fn lemma_equals_sign()
    ensures
        encode_utf8(seq!['=']) == seq![EQUALS],
{
    let one = seq!['='];
    assert(one.drop_first().len() == 0);
    assert(encode_utf8(one.drop_first()) =~= Seq::<u8>::empty());
    assert(vstd::utf8::encode_scalar('=' as u32) =~= seq![EQUALS]) by {
        assert('=' as u32 == 0x3d);
        assert(vstd::utf8::has_width_1_encoding(0x3d));
        assert(vstd::utf8::leading_byte_width_1(0x3d) == 0x3d) by (bit_vector);
    }
    assert(encode_utf8(one) =~= seq![EQUALS]);
}

/// Whether none of `bytes` is an equals sign.
pub open spec fn no_equals(bytes: Seq<u8>) -> bool {
    forall|i: int| 0 <= i < bytes.len() ==> bytes[i] != EQUALS
}

/// A search that starts within a stretch without an equals sign runs to
/// the end of the stretch.
proof fn lemma_first_equals(message: Seq<u8>, from: int, clear: int)
    requires
        0 <= from <= clear <= message.len(),
        forall|i: int| from <= i < clear ==> message[i] != EQUALS,
        clear < message.len() ==> message[clear] == EQUALS,
    ensures
        first_equals(message, from) == clear,
    decreases clear - from,
{
    if from < clear {
        lemma_first_equals(message, from + 1, clear);
    }
}

/// Parting undoes stating: a request whose key holds no equals sign is
/// read back from its plain datagram as it was.
pub proof fn lemma_request_round_trip(request: RequestView)
    requires
        no_equals(request.key),
    ensures
        request_of(plain_datagram(request)) == request,
{
    let datagram = plain_datagram(request);
    let n = request.key.len() as int;
    match request.value {
        Some(value) => {
            lemma_first_equals(datagram, 0, n);
            assert(datagram.take(n) =~= request.key);
            assert(datagram.skip(n + 1) =~= value);
        },
        None => {
            lemma_first_equals(datagram, 0, n);
        },
    }
}

/// A key and what is on record for it.
struct Entry {
    key: Vec<u8>,
    value: Vec<u8>,
}

/// The store.
pub struct Database {
    entries: Vec<Entry>,
    version: Vec<u8>,
}

impl Database {
    /// The invariant of the store: one entry for each key.
    pub closed spec fn wf(&self) -> bool {
        forall|i: int, j: int|
            0 <= i < j < self.entries@.len() ==> (#[trigger] self.entries@[i]).key@ != (
            #[trigger] self.entries@[j]).key@
    }

    /// Whether something is on record for `key`.
    pub closed spec fn holds(&self, key: Seq<u8>) -> bool {
        exists|i: int| 0 <= i < self.entries@.len() && (#[trigger] self.entries@[i]).key@ == key
    }

    /// What is on record for `key`, if something is.
    pub closed spec fn value_of(&self, key: Seq<u8>) -> Seq<u8> {
        let i = choose|i: int|
            0 <= i < self.entries@.len() && (#[trigger] self.entries@[i]).key@ == key;
        self.entries@[i].value@
    }

    /// What is on record for `key`.
    pub open spec fn lookup(&self, key: Seq<u8>) -> Option<Seq<u8>> {
        if self.holds(key) {
            Some(self.value_of(key))
        } else {
            None
        }
    }

    /// What the store answers when asked for its version.
    pub closed spec fn version(&self) -> Seq<u8> {
        self.version@
    }

    /// An empty store that gives `version` as its version.
    pub fn new(version: Vec<u8>) -> (database: Database)
        ensures
            database.wf(),
            database.version() == version@,
            forall|key: Seq<u8>| #[trigger] database.lookup(key) == None::<Seq<u8>>,
    {
        Database { entries: Vec::new(), version }
    }

    /// The index of the entry for `key`, if there is one.
    fn find(&self, key: &Vec<u8>) -> (found: Option<usize>)
        ensures
            match found {
                Some(i) => i < self.entries@.len() && self.entries@[i as int].key@ == key@,
                None => !self.holds(key@),
            },
    {
        let mut i: usize = 0;
        while i < self.entries.len()
            invariant
                i <= self.entries@.len(),
                forall|k: int| 0 <= k < i ==> (#[trigger] self.entries@[k]).key@ != key@,
            decreases self.entries@.len() - i,
        {
            if same_bytes(&self.entries[i].key, key) {
                return Some(i);
            }
            i += 1;
        }
        None
    }

    /// The entry at `i` is what is on record for its key.
    proof fn lemma_entry(&self, i: int)
        requires
            self.wf(),
            0 <= i < self.entries@.len(),
        ensures
            self.lookup(self.entries@[i].key@) == Some(self.entries@[i].value@),
    {
        let key = self.entries@[i].key@;
        assert(self.holds(key));
        let j = choose|j: int|
            0 <= j < self.entries@.len() && (#[trigger] self.entries@[j]).key@ == key;
        if i < j {
            assert(self.entries@[i].key@ != self.entries@[j].key@);
        } else if j < i {
            assert(self.entries@[j].key@ != self.entries@[i].key@);
        }
    }

    /// What is on record for `key`.
    pub fn get(&self, key: &Vec<u8>) -> (value: Option<Vec<u8>>)
        requires
            self.wf(),
        ensures
            match value {
                Some(v) => self.lookup(key@) == Some(v@),
                None => self.lookup(key@) == None::<Seq<u8>>,
            },
    {
        match self.find(key) {
            Some(i) => {
                proof {
                    self.lemma_entry(i as int);
                }
                Some(self.entries[i].value.clone())
            },
            None => None,
        }
    }

    /// Records `value` for `key`, in place of what was on record for it.
    #[verifier::rlimit(50)]
    pub fn insert(&mut self, key: Vec<u8>, value: Vec<u8>)
        requires
            old(self).wf(),
        ensures
            final(self).wf(),
            final(self).version() == old(self).version(),
            final(self).lookup(key@) == Some(value@),
            forall|other: Seq<u8>|
                other != key@ ==> #[trigger] final(self).lookup(other) == old(self).lookup(other),
    {
        let ghost stored = value@;
        let ghost name = key@;
        match self.find(&key) {
            Some(i) => {
                self.entries[i].value = value;
                proof {
                    assert(self.wf());
                    self.lemma_entry(i as int);
                    assert forall|other: Seq<u8>| other != name implies #[trigger] self.lookup(
                        other,
                    ) == old(self).lookup(other) by {
                        old(self).lemma_same(self, other);
                    }
                }
            },
            None => {
                self.entries.push(Entry { key, value });
                proof {
                    assert(self.wf());
                    self.lemma_entry(self.entries@.len() - 1);
                    assert forall|other: Seq<u8>| other != name implies #[trigger] self.lookup(
                        other,
                    ) == old(self).lookup(other) by {
                        old(self).lemma_same(self, other);
                    }
                }
            },
        }
    }

    /// A key whose entry is the same before and after has the same value
    /// on record.
    proof fn lemma_same(&self, after: &Database, key: Seq<u8>)
        requires
            self.wf(),
            after.wf(),
            self.entries@.len() <= after.entries@.len(),
            forall|j: int|
                0 <= j < self.entries@.len() ==> (#[trigger] after.entries@[j]).key@
                    == self.entries@[j].key@,
            forall|j: int|
                0 <= j < self.entries@.len() && (#[trigger] self.entries@[j]).key@ == key
                    ==> after.entries@[j].value@ == self.entries@[j].value@,
            forall|j: int|
                self.entries@.len() <= j < after.entries@.len() ==> (
                #[trigger] after.entries@[j]).key@ != key,
        ensures
            after.lookup(key) == self.lookup(key),
    {
        if self.holds(key) {
            let j = choose|j: int|
                0 <= j < self.entries@.len() && (#[trigger] self.entries@[j]).key@ == key;
            self.lemma_entry(j);
            assert(after.entries@[j].key@ == key);
            after.lemma_entry(j);
        } else {
            assert forall|j: int| 0 <= j < after.entries@.len() implies (
            #[trigger] after.entries@[j]).key@ != key by {
                if j < self.entries@.len() {
                    assert(self.entries@[j].key@ != key);
                }
            }
        }
    }

    /// What [`handle`](Self::handle) does: `self` is the store before the
    /// call, `after` the store after it, `reply` the request to answer with.
    ///
    /// An insert under the key `version` is passed over; any other insert
    /// is recorded.  Neither is answered.  A retrieval of `version` is
    /// answered with the version of the store; any other with what is on
    /// record for the key, and both under the key `version`.
    pub open spec fn handled(
        &self,
        after: &Database,
        request: RequestView,
        reply: Option<RequestView>,
    ) -> bool {
        &&& after.version() == self.version()
        &&& match request.value {
            Some(value) => {
                &&& reply is None
                &&& if request.key == version_key() {
                    forall|key: Seq<u8>| #[trigger] after.lookup(key) == self.lookup(key)
                } else {
                    &&& after.lookup(request.key) == Some(value)
                    &&& forall|key: Seq<u8>|
                        key != request.key ==> #[trigger] after.lookup(key) == self.lookup(key)
                }
            },
            None => {
                &&& forall|key: Seq<u8>| #[trigger] after.lookup(key) == self.lookup(key)
                &&& reply == Some(
                    RequestView {
                        key: version_key(),
                        value: if request.key == version_key() {
                            Some(self.version())
                        } else {
                            self.lookup(request.key)
                        },
                    },
                )
            },
        }
    }

    /// Carries out a request and returns the request to answer it with, if
    /// it is answered.
    pub fn handle(&mut self, request: Request) -> (reply: Option<Request>)
        requires
            old(self).wf(),
        ensures
            final(self).wf(),
            old(self).handled(
                final(self),
                request@,
                match reply {
                    Some(r) => Some(r@),
                    None => None,
                },
            ),
    {
        let special = version_key_bytes();
        let about_version = same_bytes(&request.key, &special);
        match request.value {
            Some(value) => {
                if !about_version {
                    self.insert(request.key, value);
                }
                None
            },
            None => {
                let value = if about_version {
                    Some(self.version.clone())
                } else {
                    self.get(&request.key)
                };
                Some(Request { key: special, value })
            },
        }
    }
}

} // verus!
