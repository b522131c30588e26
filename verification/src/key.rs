//! Keys: raw bytes with a version stamp, and their order.

use vstd::prelude::*;

verus! {

/// A key as a mathematical value: the raw bytes and the version stamp.
pub struct KeyModel {
    pub key: Seq<u8>,
    pub ts: u64,
}

/// The first index at or after `i` where `a` and `b` differ or one of them ends.
pub open spec fn common_prefix_from(a: Seq<u8>, b: Seq<u8>, i: nat) -> nat
    decreases a.len() - i,
{
    if i < a.len() && i < b.len() && a[i as int] == b[i as int] {
        common_prefix_from(a, b, i + 1)
    } else {
        i
    }
}

/// The length of the longest common prefix of `a` and `b`.
pub open spec fn common_prefix_len(a: Seq<u8>, b: Seq<u8>) -> nat {
    common_prefix_from(a, b, 0)
}

/// `k` is the length of the longest common prefix of `a` and `b`: they agree
/// below `k`, and at `k` they differ or one of them ends.
pub open spec fn is_common_prefix_len(a: Seq<u8>, b: Seq<u8>, k: nat) -> bool {
    &&& k <= a.len()
    &&& k <= b.len()
    &&& forall|j: int| 0 <= j < k ==> a[j] == b[j]
    &&& (k < a.len() && k < b.len() ==> a[k as int] != b[k as int])
}

/// Bytewise lexicographic order, strict.
pub open spec fn bytes_lt(a: Seq<u8>, b: Seq<u8>) -> bool {
    let k = common_prefix_len(a, b) as int;
    k < b.len() && (k == a.len() || a[k] < b[k])
}

/// The order of keys, strict: raw bytes ascending, then version stamp
/// descending, so that of two versions of one raw key the newer comes first.
pub open spec fn key_lt(x: KeyModel, y: KeyModel) -> bool {
    bytes_lt(x.key, y.key) || (x.key == y.key && x.ts > y.ts)
}

/// The order of keys, not strict.
pub open spec fn key_le(x: KeyModel, y: KeyModel) -> bool {
    !key_lt(y, x)
}

/// From any index up to which two byte strings agree, the recursive
/// definition arrives at the length of their longest common prefix.
pub proof fn lemma_common_prefix_from(a: Seq<u8>, b: Seq<u8>, i: nat)
    requires
        i <= a.len(),
        i <= b.len(),
        forall|j: int| 0 <= j < i ==> a[j] == b[j],
    ensures
        i <= common_prefix_from(a, b, i),
        is_common_prefix_len(a, b, common_prefix_from(a, b, i)),
    decreases a.len() - i,
{
    if i < a.len() && i < b.len() && a[i as int] == b[i as int] {
        lemma_common_prefix_from(a, b, i + 1);
    }
}

/// The recursive definition yields the longest common prefix.
pub proof fn lemma_common_prefix_len(a: Seq<u8>, b: Seq<u8>)
    ensures
        is_common_prefix_len(a, b, common_prefix_len(a, b)),
{
    lemma_common_prefix_from(a, b, 0);
}

/// The longest common prefix is no longer than either byte string, and the
/// prefix of that length of the one, with what is left of the other after
/// that many bytes, is the other.
pub proof fn lemma_shared_prefix(a: Seq<u8>, b: Seq<u8>)
    ensures
        common_prefix_len(a, b) <= a.len(),
        common_prefix_len(a, b) <= b.len(),
        a.take(common_prefix_len(a, b) as int) + b.skip(common_prefix_len(a, b) as int) == b,
{
    lemma_common_prefix_len(a, b);
    let k = common_prefix_len(a, b) as int;
    assert(a.take(k) + b.skip(k) =~= b);
}

/// Only one number is the length of the longest common prefix.
pub proof fn lemma_common_prefix_unique(a: Seq<u8>, b: Seq<u8>, k: nat)
    requires
        is_common_prefix_len(a, b, k),
    ensures
        k == common_prefix_len(a, b),
{
    lemma_common_prefix_len(a, b);
}

/// The longest common prefix of `a` and `b` is that of `b` and `a`.
pub proof fn lemma_common_prefix_symmetric(a: Seq<u8>, b: Seq<u8>)
    ensures
        common_prefix_len(a, b) == common_prefix_len(b, a),
{
    lemma_common_prefix_len(a, b);
    lemma_common_prefix_unique(b, a, common_prefix_len(a, b));
}

/// Of two byte strings exactly one holds: the first is less, they are equal,
/// or the second is less.
pub proof fn lemma_bytes_trichotomy(a: Seq<u8>, b: Seq<u8>)
    ensures
        bytes_lt(a, b) || a == b || bytes_lt(b, a),
        !(bytes_lt(a, b) && a == b),
        !(bytes_lt(b, a) && a == b),
        !(bytes_lt(a, b) && bytes_lt(b, a)),
{
    lemma_common_prefix_len(a, b);
    lemma_common_prefix_symmetric(a, b);
}

/// The order of byte strings is transitive.
pub proof fn lemma_bytes_lt_transitive(a: Seq<u8>, b: Seq<u8>, c: Seq<u8>)
    requires
        bytes_lt(a, b),
        bytes_lt(b, c),
    ensures
        bytes_lt(a, c),
{
    lemma_common_prefix_len(a, b);
    lemma_common_prefix_len(b, c);
    lemma_common_prefix_len(a, c);
    // `a` and `c` agree below the shorter of the two common prefixes, and
    // differ there as `a` and `b` do, or as `b` and `c` do.
    let k1 = common_prefix_len(a, b) as int;
    let k2 = common_prefix_len(b, c) as int;
    let m = if k1 < k2 { k1 } else { k2 };
    assert forall|j: int| 0 <= j < m implies a[j] == c[j] by {}
}

/// Of two keys exactly one holds: the first is less, they are equal, or the
/// second is less.
pub proof fn lemma_key_trichotomy(x: KeyModel, y: KeyModel)
    ensures
        key_lt(x, y) || x == y || key_lt(y, x),
        !(key_lt(x, y) && x == y),
        !(key_lt(y, x) && x == y),
        !(key_lt(x, y) && key_lt(y, x)),
{
    lemma_bytes_trichotomy(x.key, y.key);
}

/// The order of keys is transitive.
pub proof fn lemma_key_lt_transitive(x: KeyModel, y: KeyModel, z: KeyModel)
    requires
        key_lt(x, y),
        key_lt(y, z),
    ensures
        key_lt(x, z),
{
    if bytes_lt(x.key, y.key) && bytes_lt(y.key, z.key) {
        lemma_bytes_lt_transitive(x.key, y.key, z.key);
    }
}

/// `key_le` before `key_lt` gives `key_lt`, and so does `key_lt` before `key_le`.
pub proof fn lemma_key_le_lt_transitive(x: KeyModel, y: KeyModel, z: KeyModel)
    requires
        (key_le(x, y) && key_lt(y, z)) || (key_lt(x, y) && key_le(y, z)),
    ensures
        key_lt(x, z),
{
    lemma_key_trichotomy(x, y);
    lemma_key_trichotomy(y, z);
    if key_lt(x, y) && key_lt(y, z) {
        lemma_key_lt_transitive(x, y, z);
    }
}

/// The order of keys, not strict, is transitive.
pub proof fn lemma_key_le_transitive(x: KeyModel, y: KeyModel, z: KeyModel)
    requires
        key_le(x, y),
        key_le(y, z),
    ensures
        key_le(x, z),
{
    lemma_key_trichotomy(x, y);
    lemma_key_trichotomy(y, z);
    lemma_key_trichotomy(x, z);
    if key_lt(z, x) {
        if key_lt(x, y) {
            lemma_key_lt_transitive(z, x, y);
        }
    }
}

/// How one key stands to another in the order of keys.
#[derive(Clone, Copy, PartialEq, Eq, Structural, Debug)]
pub enum KeyOrder {
    Less,
    Equal,
    Greater,
}

/// A borrowed key: raw bytes and a version stamp.
#[derive(Clone, Copy, Debug)]
pub struct KeySlice<'a> {
    key: &'a [u8],
    ts: u64,
}

/// An owned key: raw bytes and a version stamp.
#[derive(Debug)]
pub struct KeyVec {
    key: Vec<u8>,
    ts: u64,
}

impl<'a> View for KeySlice<'a> {
    type V = KeyModel;

    closed spec fn view(&self) -> KeyModel {
        KeyModel { key: self.key@, ts: self.ts }
    }
}

impl View for KeyVec {
    type V = KeyModel;

    closed spec fn view(&self) -> KeyModel {
        KeyModel { key: self.key@, ts: self.ts }
    }
}

impl<'a> KeySlice<'a> {
    /// A key of the raw bytes `slice` and the version stamp `ts`.
    pub fn from_slice(slice: &'a [u8], ts: u64) -> (k: Self)
        ensures
            k@ == (KeyModel { key: slice@, ts }),
    {
        KeySlice { key: slice, ts }
    }

    /// The raw bytes of the key.
    pub fn key_ref(self) -> (r: &'a [u8])
        ensures
            r@ == self@.key,
    {
        self.key
    }

    /// The version stamp of the key.
    pub fn ts(&self) -> (r: u64)
        ensures
            r == self@.ts,
    {
        self.ts
    }

    /// The length of the raw key in bytes.
    pub fn key_len(&self) -> (r: usize)
        ensures
            r == self@.key.len(),
    {
        self.key.len()
    }

    /// The length of the key with its version stamp: eight bytes more than
    /// the raw key.
    pub fn raw_len(&self) -> (r: usize)
        requires
            self@.key.len() + 8 <= usize::MAX,
        ensures
            r == self@.key.len() + 8,
    {
        self.key.len() + 8
    }

    /// Whether the raw key is empty, which stands for "no key".
    pub fn is_empty(&self) -> (r: bool)
        ensures
            r == (self@.key.len() == 0),
    {
        self.key.len() == 0
    }

    /// An owned copy of the key.
    pub fn to_key_vec(self) -> (k: KeyVec)
        ensures
            k@ == self@,
    {
        let mut key: Vec<u8> = Vec::new();
        key.extend_from_slice(self.key);
        assert(key@ =~= self.key@);
        KeyVec { key, ts: self.ts }
    }

    /// Compares two keys: raw bytes first, and for equal raw bytes the larger
    /// version stamp comes first.
    pub fn compare(&self, other: &KeySlice) -> (r: KeyOrder)
        ensures
            (r == KeyOrder::Less) == key_lt(self@, other@),
            (r == KeyOrder::Equal) == (self@ == other@),
            (r == KeyOrder::Greater) == key_lt(other@, self@),
    {
        let a = self.key;
        let b = other.key;
        proof {
            lemma_key_trichotomy(self@, other@);
            lemma_common_prefix_symmetric(a@, b@);
        }
        let mut i: usize = 0;
        while i < a.len() && i < b.len()
            invariant
                a@ == self@.key,
                b@ == other@.key,
                key_lt(self@, other@) || self@ == other@ || key_lt(other@, self@),
                !(key_lt(self@, other@) && key_lt(other@, self@)),
                common_prefix_len(a@, b@) == common_prefix_len(b@, a@),
                i <= a@.len(),
                i <= b@.len(),
                forall|j: int| 0 <= j < i ==> a@[j] == b@[j],
            decreases a@.len() - i,
        {
            if a[i] < b[i] {
                proof {
                    lemma_common_prefix_unique(a@, b@, i as nat);
                }
                return KeyOrder::Less;
            }
            if a[i] > b[i] {
                proof {
                    lemma_common_prefix_unique(a@, b@, i as nat);
                }
                return KeyOrder::Greater;
            }
            i += 1;
        }
        proof {
            lemma_common_prefix_unique(a@, b@, i as nat);
        }
        if i < b.len() {
            KeyOrder::Less
        } else if i < a.len() {
            KeyOrder::Greater
        } else {
            if self.ts > other.ts {
                KeyOrder::Less
            } else if self.ts < other.ts {
                KeyOrder::Greater
            } else {
                KeyOrder::Equal
            }
        }
    }
}

impl KeyVec {
    /// The empty key, which stands for "no key".
    pub fn new() -> (k: Self)
        ensures
            k@ == (KeyModel { key: Seq::empty(), ts: 0 }),
    {
        KeyVec { key: Vec::new(), ts: 0 }
    }

    /// A key of the raw bytes `key` and the version stamp `ts`.
    pub fn from_vec_with_ts(key: Vec<u8>, ts: u64) -> (k: Self)
        ensures
            k@ == (KeyModel { key: key@, ts }),
    {
        KeyVec { key, ts }
    }

    /// Empties the raw key; the version stamp stays.
    pub fn clear(&mut self)
        ensures
            final(self)@ == (KeyModel { key: Seq::empty(), ts: old(self)@.ts }),
    {
        self.key.clear();
    }

    /// Appends `data` to the raw key.
    pub fn append(&mut self, data: &[u8])
        ensures
            final(self)@ == (KeyModel { key: old(self)@.key + data@, ts: old(self)@.ts }),
    {
        self.key.extend_from_slice(data);
        assert(self.key@ =~= old(self).key@ + data@);
    }

    /// Sets the version stamp; the raw key stays.
    pub fn set_ts(&mut self, ts: u64)
        ensures
            final(self)@ == (KeyModel { key: old(self)@.key, ts }),
    {
        self.ts = ts;
    }

    /// The key, borrowed.
    pub fn as_key_slice(&self) -> (k: KeySlice<'_>)
        ensures
            k@ == self@,
    {
        KeySlice { key: self.key.as_slice(), ts: self.ts }
    }

    /// The raw bytes of the key.
    pub fn key_ref(&self) -> (r: &[u8])
        ensures
            r@ == self@.key,
    {
        self.key.as_slice()
    }

    /// The version stamp of the key.
    pub fn ts(&self) -> (r: u64)
        ensures
            r == self@.ts,
    {
        self.ts
    }

    /// The length of the raw key in bytes.
    pub fn key_len(&self) -> (r: usize)
        ensures
            r == self@.key.len(),
    {
        self.key.len()
    }

    /// Whether the raw key is empty, which stands for "no key".
    pub fn is_empty(&self) -> (r: bool)
        ensures
            r == (self@.key.len() == 0),
    {
        self.key.len() == 0
    }
}

} // verus!
