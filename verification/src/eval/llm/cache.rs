//! The LLM answer cache: file locations and content-addressed keys.
use vstd::prelude::*;
use crate::text::{push_char, push_str};
use vstd::string::StringSliceAdditionalSpecFns;

verus! {

/// SHA-256 of a byte string.
pub uninterp spec fn sha256(data: Seq<u8>) -> Seq<u8>;

/// SHA-256 digest of `data` (sha2's `Sha256::digest`). The digest is named,
/// not restated; the contract adds only its fixed length of 32 bytes.
#[verifier::external_body]
fn sha256_digest(data: &[u8]) -> (d: Vec<u8>)
    ensures
        d@ == sha256(data@),
        d@.len() == 32,
{
    <sha2::Sha256 as sha2::Digest>::digest(data).to_vec()
}

/// Lowercase hexadecimal digit of a value below 16.
pub open spec fn hex_digit(v: nat) -> char {
    if v == 0 { '0' } else if v == 1 { '1' } else if v == 2 { '2' } else if v == 3 { '3' }
    else if v == 4 { '4' } else if v == 5 { '5' } else if v == 6 { '6' } else if v == 7 { '7' }
    else if v == 8 { '8' } else if v == 9 { '9' } else if v == 10 { 'a' } else if v == 11 { 'b' }
    else if v == 12 { 'c' } else if v == 13 { 'd' } else if v == 14 { 'e' } else { 'f' }
}

/// Lowercase hexadecimal rendering, two digits per byte (`{:02x}`).
pub open spec fn hex(bs: Seq<u8>) -> Seq<char>
    decreases bs.len(),
{
    if bs.len() == 0 {
        Seq::empty()
    } else {
        hex(bs.drop_last()).push(hex_digit((bs.last() / 16) as nat)).push(hex_digit((bs.last() % 16) as nat))
    }
}

/// Each part's UTF-8 bytes followed by a zero byte, in order.
pub open spec fn zero_joined(parts: Seq<Seq<u8>>) -> Seq<u8>
    decreases parts.len(),
{
    if parts.len() == 0 {
        Seq::empty()
    } else {
        zero_joined(parts.drop_last()) + parts.last() + seq![0u8]
    }
}

/// `dir` joined with a file name as Unix paths join: an absolute name
/// replaces the directory, an empty directory gives the name alone, and
/// otherwise one `/` separates them.
pub open spec fn join_path(dir: Seq<char>, name: Seq<char>) -> Seq<char> {
    if name.len() > 0 && name[0] == '/' {
        name
    } else if dir.len() == 0 {
        name
    } else if dir.last() == '/' {
        dir + name
    } else {
        dir + "/"@ + name
    }
}

fn hex_digit_char(v: u8) -> (c: char)
    requires
        v < 16,
    ensures
        c == hex_digit(v as nat),
{
    if v == 0 { '0' } else if v == 1 { '1' } else if v == 2 { '2' } else if v == 3 { '3' }
    else if v == 4 { '4' } else if v == 5 { '5' } else if v == 6 { '6' } else if v == 7 { '7' }
    else if v == 8 { '8' } else if v == 9 { '9' } else if v == 10 { 'a' } else if v == 11 { 'b' }
    else if v == 12 { 'c' } else if v == 13 { 'd' } else if v == 14 { 'e' } else { 'f' }
}

/// Appends the lowercase hex rendering of `bs`.
fn push_hex(s: &mut String, bs: &[u8])
    ensures
        final(s)@ == old(s)@ + hex(bs@),
{
    let mut i: usize = 0;
    assert(bs@.take(0) =~= Seq::<u8>::empty());
    assert(old(s)@ + hex(Seq::<u8>::empty()) =~= old(s)@);
    while i < bs.len()
        invariant
            i <= bs.len(),
            s@ == old(s)@ + hex(bs@.take(i as int)),
        decreases bs.len() - i,
    {
        let b = bs[i];
        push_char(s, hex_digit_char(b / 16));
        push_char(s, hex_digit_char(b % 16));
        assert(bs@.take(i + 1).drop_last() =~= bs@.take(i as int));
        i += 1;
    }
    assert(bs@.take(bs.len() as int) =~= bs@);
}

fn push_bytes(v: &mut Vec<u8>, bs: &[u8])
    ensures
        final(v)@ == old(v)@ + bs@,
{
    let mut i: usize = 0;
    while i < bs.len()
        invariant
            i <= bs.len(),
            v@ == old(v)@ + bs@.take(i as int),
        decreases bs.len() - i,
    {
        v.push(bs[i]);
        i += 1;
        assert(v@ =~= old(v)@ + bs@.take(i as int));
    }
    assert(bs@.take(bs.len() as int) =~= bs@);
}

/// The on-disk cache of LLM answers, one JSON file per key in a directory.
pub struct FileCache {
    dir: String,
}

impl FileCache {
    /// The directory holding the cache files.
    pub closed spec fn dir(&self) -> Seq<char> {
        self.dir@
    }

    /// A cache in directory `dir`.
    pub fn new(dir: String) -> (c: Self)
        ensures
            c.dir() == dir@,
    {
        FileCache { dir }
    }

    /// Cache key: the lowercase hex SHA-256 of model, base URL, system prompt,
    /// node id and rendered prompt, each followed by a zero byte. Changing any
    /// part changes what is hashed, so a new endpoint or prompt misses the cache.
    pub fn key(model: &str, base_url: &str, system_prompt: &str, node_id: &str, rendered: &str) -> (k: String)
        ensures
            k@ == hex(sha256(zero_joined(seq![model.spec_bytes(), base_url.spec_bytes(),
                system_prompt.spec_bytes(), node_id.spec_bytes(), rendered.spec_bytes()]))),
            k@.len() == 64,
    {
        let mut data: Vec<u8> = Vec::new();
        let ghost parts = seq![model.spec_bytes(), base_url.spec_bytes(), system_prompt.spec_bytes(),
            node_id.spec_bytes(), rendered.spec_bytes()];
        assert(zero_joined(parts.take(0)) =~= Seq::<u8>::empty());
        push_bytes(&mut data, model.as_bytes());
        data.push(0u8);
        assert(parts.take(1).drop_last() =~= parts.take(0));
        assert(data@ =~= zero_joined(parts.take(1)));
        push_bytes(&mut data, base_url.as_bytes());
        data.push(0u8);
        assert(parts.take(2).drop_last() =~= parts.take(1));
        assert(data@ =~= zero_joined(parts.take(2)));
        push_bytes(&mut data, system_prompt.as_bytes());
        data.push(0u8);
        assert(parts.take(3).drop_last() =~= parts.take(2));
        assert(data@ =~= zero_joined(parts.take(3)));
        push_bytes(&mut data, node_id.as_bytes());
        data.push(0u8);
        assert(parts.take(4).drop_last() =~= parts.take(3));
        assert(data@ =~= zero_joined(parts.take(4)));
        push_bytes(&mut data, rendered.as_bytes());
        data.push(0u8);
        assert(parts.drop_last() =~= parts.take(4));
        assert(data@ =~= zero_joined(parts));
        let d = sha256_digest(data.as_slice());
        let mut k = String::new();
        push_hex(&mut k, d.as_slice());
        proof {
            lemma_hex_len(d@);
        }
        k
    }

    /// The file of a key: `<dir>/<key>.json`.
    pub fn path_for(&self, key: &str) -> (p: String)
        ensures
            p@ == join_path(self.dir(), key@ + ".json"@),
    {
        let mut name = String::from_str(key);
        push_str(&mut name, ".json");
        let kc = crate::text::chars_of(key);
        proof {
            reveal_strlit(".json");
            if key@.len() > 0 {
                assert(name@[0] == key@[0]);
            } else {
                assert(name@ =~= ".json"@);
            }
        }
        if kc.len() > 0 && kc[0] == '/' {
            return name;
        }
        let mut p = String::from_str(self.dir.as_str());
        if !self.dir.as_str().is_empty() {
            let cs = crate::text::chars_of(self.dir.as_str());
            if cs[cs.len() - 1] != '/' {
                push_str(&mut p, "/");
            }
        }
        push_str(&mut p, name.as_str());
        p
    }
}

/// A hex rendering has two characters per byte.
pub proof fn lemma_hex_len(bs: Seq<u8>)
    ensures
        hex(bs).len() == 2 * bs.len(),
    decreases bs.len(),
{
    if bs.len() > 0 {
        lemma_hex_len(bs.drop_last());
    }
}

/// A lowercase hexadecimal digit.
pub open spec fn is_lower_hex(c: char) -> bool {
    ('0' <= c && c <= '9') || ('a' <= c && c <= 'f')
}

proof fn lemma_hex_digit_injective(v: nat, w: nat)
    requires
        v < 16,
        w < 16,
        hex_digit(v) == hex_digit(w),
    ensures
        v == w,
{
}

/// Law: a hex rendering has two lowercase hexadecimal digits per byte, and
/// it determines the bytes: renderings of different byte strings differ.
/// A cache key is so the 64-digit rendering of its 32-byte digest, and two
/// keys are equal exactly when their digests are.
pub proof fn law_hex_digits_and_injective(a: Seq<u8>, b: Seq<u8>)
    ensures
        hex(a).len() == 2 * a.len(),
        forall|k: int| 0 <= k < hex(a).len() ==> is_lower_hex(#[trigger] hex(a)[k]),
        hex(a) == hex(b) ==> a == b,
    decreases a.len(),
{
    lemma_hex_len(a);
    lemma_hex_len(b);
    if a.len() > 0 {
        law_hex_digits_and_injective(a.drop_last(), b.drop_last());
        let h = hex(a);
        let h0 = hex(a.drop_last());
        assert forall|k: int| 0 <= k < h.len() implies is_lower_hex(#[trigger] h[k]) by {
            if k < h0.len() {
                assert(h[k] == h0[k]);
            }
        }
        if hex(a) == hex(b) {
            assert(b.len() == a.len());
            let hb = hex(b);
            let n = h.len() as int;
            assert(h[n - 1] == hb[n - 1]);
            assert(h[n - 2] == hb[n - 2]);
            lemma_hex_digit_injective((a.last() / 16) as nat, (b.last() / 16) as nat);
            lemma_hex_digit_injective((a.last() % 16) as nat, (b.last() % 16) as nat);
            assert(a.last() == b.last());
            assert(h0 =~= h.drop_last().drop_last());
            assert(hex(b.drop_last()) =~= hb.drop_last().drop_last());
            assert(a =~= a.drop_last().push(a.last()));
            assert(b =~= b.drop_last().push(b.last()));
        }
    } else {
        if hex(a) == hex(b) {
            assert(b.len() == 0);
            assert(a =~= b);
        }
    }
}

/// No zero byte.
pub open spec fn nul_free(b: Seq<u8>) -> bool {
    forall|i: int| 0 <= i < b.len() ==> b[i] != 0
}

proof fn lemma_zero_joined_shape(parts: Seq<Seq<u8>>)
    ensures
        parts.len() == 0 <==> zero_joined(parts).len() == 0,
        parts.len() > 0 ==> zero_joined(parts).last() == 0,
{
    if parts.len() > 0 {
        assert(zero_joined(parts).len() > 0);
    }
}

/// Law: the bytes hashed for a cache key determine its parts when no part
/// holds a zero byte: different NUL-free part lists are hashed from
/// different inputs.
pub proof fn law_key_input_injective(a: Seq<Seq<u8>>, b: Seq<Seq<u8>>)
    requires
        forall|i: int| 0 <= i < a.len() ==> nul_free(#[trigger] a[i]),
        forall|i: int| 0 <= i < b.len() ==> nul_free(#[trigger] b[i]),
        zero_joined(a) == zero_joined(b),
    ensures
        a == b,
    decreases a.len(),
{
    lemma_zero_joined_shape(a);
    lemma_zero_joined_shape(b);
    if a.len() > 0 && b.len() > 0 {
        let a0 = a.drop_last();
        let b0 = b.drop_last();
        let al = a.last();
        let bl = b.last();
        let x = zero_joined(a);
        let xp = zero_joined(a0) + al;
        assert(x == xp + seq![0u8]);
        assert(x == zero_joined(b0) + bl + seq![0u8]);
        assert(xp =~= x.drop_last());
        assert(zero_joined(b0) + bl =~= x.drop_last());
        let n = xp.len() as int;
        lemma_zero_joined_shape(a0);
        lemma_zero_joined_shape(b0);
        assert(nul_free(al));
        assert(nul_free(bl));
        if al.len() < bl.len() {
            let p = n - al.len() - 1;
            assert(zero_joined(a0).len() == p + 1);
            assert(xp[p] == zero_joined(a0).last());
            assert((zero_joined(b0) + bl)[p] == bl[p - zero_joined(b0).len()]);
            assert(false);
        } else if bl.len() < al.len() {
            let p = n - bl.len() - 1;
            assert(zero_joined(b0).len() == p + 1);
            assert((zero_joined(b0) + bl)[p] == zero_joined(b0).last());
            assert(xp[p] == al[p - zero_joined(a0).len()]);
            assert(false);
        }
        assert(al =~= xp.subrange(n - al.len(), n));
        assert(bl =~= (zero_joined(b0) + bl).subrange(n - bl.len(), n));
        assert(zero_joined(a0) =~= xp.subrange(0, n - al.len()));
        assert(zero_joined(b0) =~= (zero_joined(b0) + bl).subrange(0, n - bl.len()));
        assert forall|i: int| 0 <= i < a0.len() implies nul_free(#[trigger] a0[i]) by {
            assert(a0[i] == a[i]);
        }
        assert forall|i: int| 0 <= i < b0.len() implies nul_free(#[trigger] b0[i]) by {
            assert(b0[i] == b[i]);
        }
        law_key_input_injective(a0, b0);
        assert(a =~= a0.push(al));
        assert(b =~= b0.push(bl));
    }
}

} // verus!
