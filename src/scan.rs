//! Choosing the audio files of a directory: by extension, in file-name
//! order.

use vstd::prelude::*;
use vstd::seq_lib::group_to_multiset_ensures;
use vstd::string::StringSliceAdditionalSpecFns;
use vstd::utf8::encode_utf8;

verus! {

/// Index of the last `.` in `s`, or -1 when there is none.
pub open spec fn last_dot(s: Seq<u8>) -> int
    decreases s.len(),
{
    if s.len() == 0 {
        -1
    } else if s.last() == 46u8 {
        s.len() - 1
    } else {
        last_dot(s.drop_last())
    }
}

/// The extension of a file name: what follows its last `.`, when that dot
/// is not the name's first byte (a name such as `.flac` has none).
pub open spec fn extension_of(name: Seq<u8>) -> Option<Seq<u8>> {
    let d = last_dot(name);
    if d <= 0 {
        None
    } else {
        Some(name.subrange(d + 1, name.len() as int))
    }
}

pub open spec fn ascii_lower(b: u8) -> u8 {
    if 65 <= b <= 90 {
        (b + 32) as u8
    } else {
        b
    }
}

pub open spec fn lower_bytes(s: Seq<u8>) -> Seq<u8> {
    s.map_values(|b: u8| ascii_lower(b))
}

/// The recognised extensions, in lower case: flac, mp3, wav, ogg, m4a,
/// opus, wv, aif, aiff.
pub open spec fn is_audio_ext(e: Seq<u8>) -> bool {
    ||| e == seq![102u8, 108u8, 97u8, 99u8]  // flac
    ||| e == seq![109u8, 112u8, 51u8]  // mp3
    ||| e == seq![119u8, 97u8, 118u8]  // wav
    ||| e == seq![111u8, 103u8, 103u8]  // ogg
    ||| e == seq![109u8, 52u8, 97u8]  // m4a
    ||| e == seq![111u8, 112u8, 117u8, 115u8]  // opus
    ||| e == seq![119u8, 118u8]  // wv
    ||| e == seq![97u8, 105u8, 102u8]  // aif
    ||| e == seq![97u8, 105u8, 102u8, 102u8]  // aiff
}

/// Whether a file name (as UTF-8 bytes) has an audio extension, compared
/// without regard to ASCII case. Every recognised extension is ASCII, and
/// no other character lowers to one of their letters, so this agrees with
/// full Unicode lowercasing.
pub open spec fn is_audio_name(name: Seq<u8>) -> bool {
    match extension_of(name) {
        Some(e) => is_audio_ext(lower_bytes(e)),
        None => false,
    }
}

fn bytes_eq(a: &[u8], b: &[u8]) -> (r: bool)
    ensures
        r == (a@ == b@),
{
    if a.len() != b.len() {
        return false;
    }
    let mut i: usize = 0;
    while i < a.len()
        invariant
            i <= a@.len(),
            a@.len() == b@.len(),
            forall|k: int| 0 <= k < i ==> a@[k] == b@[k],
        decreases a@.len() - i,
    {
        if a[i] != b[i] {
            return false;
        }
        i = i + 1;
    }
    proof {
        assert(a@ =~= b@);
    }
    true
}

/// Whether `ext` is one of the audio extensions, ignoring ASCII case.
pub fn is_audio_extension(ext: &[u8]) -> (r: bool)
    ensures
        r == is_audio_ext(lower_bytes(ext@)),
{
    let mut low: Vec<u8> = Vec::new();
    let mut i: usize = 0;
    while i < ext.len()
        invariant
            i <= ext@.len(),
            low@ =~= lower_bytes(ext@.take(i as int)),
        decreases ext@.len() - i,
    {
        let b = ext[i];
        let l: u8 = if 65 <= b && b <= 90 {
            b + 32
        } else {
            b
        };
        low.push(l);
        i = i + 1;
        proof {
            assert(lower_bytes(ext@.take(i as int)) =~= lower_bytes(ext@.take(i - 1)).push(l));
        }
    }
    proof {
        assert(ext@.take(ext@.len() as int) =~= ext@);
    }
    let s = low.as_slice();
    let flac: [u8; 4] = [102u8, 108u8, 97u8, 99u8];
    let mp3: [u8; 3] = [109u8, 112u8, 51u8];
    let wav: [u8; 3] = [119u8, 97u8, 118u8];
    let ogg: [u8; 3] = [111u8, 103u8, 103u8];
    let m4a: [u8; 3] = [109u8, 52u8, 97u8];
    let opus: [u8; 4] = [111u8, 112u8, 117u8, 115u8];
    let wv: [u8; 2] = [119u8, 118u8];
    let aif: [u8; 3] = [97u8, 105u8, 102u8];
    let aiff: [u8; 4] = [97u8, 105u8, 102u8, 102u8];
    let r = bytes_eq(s, flac.as_slice()) || bytes_eq(s, mp3.as_slice()) || bytes_eq(s, wav.as_slice())
        || bytes_eq(s, ogg.as_slice()) || bytes_eq(s, m4a.as_slice()) || bytes_eq(s, opus.as_slice())
        || bytes_eq(s, wv.as_slice()) || bytes_eq(s, aif.as_slice()) || bytes_eq(s, aiff.as_slice());
    proof {
        assert(flac@ =~= seq![102u8, 108u8, 97u8, 99u8]);
        assert(mp3@ =~= seq![109u8, 112u8, 51u8]);
        assert(wav@ =~= seq![119u8, 97u8, 118u8]);
        assert(ogg@ =~= seq![111u8, 103u8, 103u8]);
        assert(m4a@ =~= seq![109u8, 52u8, 97u8]);
        assert(opus@ =~= seq![111u8, 112u8, 117u8, 115u8]);
        assert(wv@ =~= seq![119u8, 118u8]);
        assert(aif@ =~= seq![97u8, 105u8, 102u8]);
        assert(aiff@ =~= seq![97u8, 105u8, 102u8, 102u8]);
    }
    r
}

/// Whether the file name `name` has an audio extension (case-insensitive).
pub fn is_audio_file(name: &str) -> (r: bool)
    ensures
        r == is_audio_name(name.spec_bytes()),
{
    let bytes = name.as_bytes();
    let mut i: usize = bytes.len();
    proof {
        assert(bytes@.take(i as int) =~= bytes@);
    }
    while i > 0 && bytes[i - 1] != 46u8
        invariant
            i <= bytes@.len(),
            last_dot(bytes@) == last_dot(bytes@.take(i as int)),
        decreases i,
    {
        proof {
            assert(bytes@.take(i - 1) =~= bytes@.take(i as int).drop_last());
        }
        i = i - 1;
    }
    proof {
        if i > 0 {
            assert(bytes@.take(i as int).last() == 46u8);
        }
        assert(bytes@.take(bytes@.len() as int) =~= bytes@);
    }
    if i <= 1 {
        return false;
    }
    let (_, ext) = bytes.split_at(i);
    is_audio_extension(ext)
}

/// Lexicographic order on byte strings (a proper prefix comes first).
pub open spec fn lex_le(a: Seq<u8>, b: Seq<u8>) -> bool
    decreases a.len(),
{
    if a.len() == 0 {
        true
    } else if b.len() == 0 {
        false
    } else if a[0] < b[0] {
        true
    } else if a[0] > b[0] {
        false
    } else {
        lex_le(a.drop_first(), b.drop_first())
    }
}

pub proof fn lemma_lex_total(a: Seq<u8>, b: Seq<u8>)
    ensures
        lex_le(a, b) || lex_le(b, a),
    decreases a.len(),
{
    if a.len() > 0 && b.len() > 0 && a[0] == b[0] {
        lemma_lex_total(a.drop_first(), b.drop_first());
    }
}

pub proof fn lemma_lex_trans(a: Seq<u8>, b: Seq<u8>, c: Seq<u8>)
    requires
        lex_le(a, b),
        lex_le(b, c),
    ensures
        lex_le(a, c),
    decreases a.len(),
{
    if a.len() > 0 && b.len() > 0 && c.len() > 0 && a[0] == b[0] && b[0] == c[0] {
        lemma_lex_trans(a.drop_first(), b.drop_first(), c.drop_first());
    }
}

/// Compares two byte strings lexicographically.
fn lex_le_exec(a: &[u8], b: &[u8]) -> (r: bool)
    ensures
        r == lex_le(a@, b@),
{
    let mut i: usize = 0;
    proof {
        assert(a@.subrange(0, a@.len() as int) =~= a@);
        assert(b@.subrange(0, b@.len() as int) =~= b@);
    }
    while i < a.len() && i < b.len() && a[i] == b[i]
        invariant
            i <= a@.len(),
            i <= b@.len(),
            lex_le(a@, b@) == lex_le(a@.subrange(i as int, a@.len() as int), b@.subrange(i as int, b@.len() as int)),
        decreases a@.len() - i,
    {
        proof {
            let sa = a@.subrange(i as int, a@.len() as int);
            let sb = b@.subrange(i as int, b@.len() as int);
            assert(sa.drop_first() =~= a@.subrange(i + 1, a@.len() as int));
            assert(sb.drop_first() =~= b@.subrange(i + 1, b@.len() as int));
        }
        i = i + 1;
    }
    if i == a.len() {
        true
    } else if i == b.len() {
        false
    } else {
        a[i] < b[i]
    }
}

/// Indices, in increasing order, of the names among `names[0 .. n]` that
/// have an audio extension.
pub open spec fn audio_indices(names: Seq<String>, n: int) -> Seq<usize>
    decreases n,
{
    if n <= 0 {
        Seq::empty()
    } else {
        let rest = audio_indices(names, n - 1);
        if is_audio_name(encode_utf8(names[n - 1]@)) {
            rest.push((n - 1) as usize)
        } else {
            rest
        }
    }
}

/// The bytes of the name at index `i`.
pub open spec fn name_key(names: Seq<String>, i: usize) -> Seq<u8> {
    encode_utf8(names[i as int]@)
}

/// The indices of the audio files among `names`, ordered by name
/// (byte-wise lexicographic, which is how paths within one directory
/// compare).
pub fn select_audio_files(names: &Vec<String>) -> (r: Vec<usize>)
    ensures
        r@.to_multiset() == audio_indices(names@, names@.len() as int).to_multiset(),
        forall|k: int| 0 <= k < r@.len() ==> r@[k] < names@.len(),
        forall|a: int, b: int|
            0 <= a < b < r@.len() ==> lex_le(name_key(names@, #[trigger] r@[a]), name_key(names@, #[trigger] r@[b])),
{
    broadcast use group_to_multiset_ensures;

    let mut r: Vec<usize> = Vec::new();
    let mut i: usize = 0;
    while i < names.len()
        invariant
            i <= names@.len(),
            r@.to_multiset() == audio_indices(names@, i as int).to_multiset(),
            forall|k: int| 0 <= k < r@.len() ==> r@[k] < i,
            forall|a: int, b: int|
                0 <= a < b < r@.len() ==> lex_le(name_key(names@, #[trigger] r@[a]), name_key(names@, #[trigger] r@[b])),
        decreases names@.len() - i,
    {
        let key = names[i].as_str().as_bytes();
        if is_audio_file(names[i].as_str()) {
            let mut j: usize = 0;
            while j < r.len() && lex_le_exec(names[r[j]].as_str().as_bytes(), key)
                invariant
                    j <= r@.len(),
                    i < names@.len(),
                    key@ == name_key(names@, i),
                    forall|k: int| 0 <= k < r@.len() ==> r@[k] < i,
                    forall|k: int| 0 <= k < j ==> lex_le(name_key(names@, #[trigger] r@[k]), key@),
                decreases r@.len() - j,
            {
                j = j + 1;
            }
            proof {
                if j < r@.len() {
                    lemma_lex_total(name_key(names@, r@[j as int]), key@);
                }
                assert forall|k: int| j <= k < r@.len() implies lex_le(key@, name_key(names@, #[trigger] r@[k])) by {
                    if k > j {
                        lemma_lex_trans(key@, name_key(names@, r@[j as int]), name_key(names@, r@[k]));
                    }
                }
            }
            let ghost old_r = r@;
            r.insert(j, i);
            proof {
                vstd::seq_lib::to_multiset_insert(old_r, j as int, i);
                vstd::seq_lib::to_multiset_build(audio_indices(names@, i as int), i);
                assert forall|a: int, b: int| 0 <= a < b < r@.len() implies lex_le(
                    name_key(names@, #[trigger] r@[a]),
                    name_key(names@, #[trigger] r@[b]),
                ) by {
                    if a < j && b < j {
                        assert(r@[a] == old_r[a] && r@[b] == old_r[b]);
                    } else if a > j && b > j {
                        assert(r@[a] == old_r[a - 1] && r@[b] == old_r[b - 1]);
                    } else if a < j && b > j {
                        assert(r@[a] == old_r[a] && r@[b] == old_r[b - 1]);
                        lemma_lex_trans(name_key(names@, old_r[a]), key@, name_key(names@, old_r[b - 1]));
                    } else if a == j {
                        assert(r@[b] == old_r[b - 1]);
                    } else {
                        assert(r@[a] == old_r[a]);
                    }
                }
                assert forall|k: int| 0 <= k < r@.len() implies r@[k] < i + 1 by {
                    if k < j {
                        assert(r@[k] == old_r[k]);
                    } else if k > j {
                        assert(r@[k] == old_r[k - 1]);
                    }
                }
            }
        }
        i = i + 1;
    }
    r
}

} // verus!
