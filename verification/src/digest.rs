use vstd::prelude::*;
use vstd::utf8::encode_utf8;

verus! {

/// What SHA-256 gives for a byte string.
pub uninterp spec fn sha256(data: Seq<u8>) -> Seq<u8>;

/// `sha2::Sha256::digest`: the SHA-256 digest of the bytes, named `sha256`; it is
/// 32 bytes long.
#[verifier::external_body]
pub(crate) fn sha256_digest(data: &[u8]) -> (r: Vec<u8>)
    ensures
        r@ == sha256(data@),
        r@.len() == 32,
{
    <sha2::Sha256 as sha2::Digest>::digest(data).to_vec()
}

/// The lowercase hexadecimal digit for a value below sixteen.
pub open spec fn hex_char(d: int) -> char {
    seq!['0', '1', '2', '3', '4', '5', '6', '7', '8', '9', 'a', 'b', 'c', 'd', 'e', 'f'][d]
}

/// Two lowercase hexadecimal digits per byte, high half first (`{:x}` of a digest).
pub open spec fn hex_lower(data: Seq<u8>) -> Seq<char>
    decreases data.len(),
{
    if data.len() == 0 {
        Seq::empty()
    } else {
        hex_lower(data.drop_last()) + seq![
            hex_char(data.last() as int / 16),
            hex_char(data.last() as int % 16),
        ]
    }
}

/// Hexadecimal text holds no slash.
pub proof fn lemma_hex_lower_no_slash(data: Seq<u8>)
    ensures
        !hex_lower(data).contains('/'),
    decreases data.len(),
{
    if data.len() > 0 {
        lemma_hex_lower_no_slash(data.drop_last());
        let p = hex_lower(data.drop_last());
        let hi = data.last() as int / 16;
        let lo = data.last() as int % 16;
        assert(hex_char(hi) != '/');
        assert(hex_char(lo) != '/');
        let h = hex_lower(data);
        assert(h =~= p + seq![hex_char(hi), hex_char(lo)]);
        if h.contains('/') {
            let i = choose|i: int| 0 <= i < h.len() && h[i] == '/';
            if i < p.len() {
                assert(p[i] == '/');
            }
        }
    }
}

fn hex_char_exec(d: u8) -> (c: char)
    requires
        d < 16,
    ensures
        c == hex_char(d as int),
{
    let table: [char; 16] = [
        '0', '1', '2', '3', '4', '5', '6', '7', '8', '9', 'a', 'b', 'c', 'd', 'e', 'f',
    ];
    assert(table@ =~= seq![
        '0', '1', '2', '3', '4', '5', '6', '7', '8', '9', 'a', 'b', 'c', 'd', 'e', 'f',
    ]);
    table[d as usize]
}

/// Lowercase hexadecimal text of a byte string.
pub fn to_hex_lower(data: &[u8]) -> (r: String)
    ensures
        r@ == hex_lower(data@),
{
    let mut out = String::new();
    let mut i: usize = 0;
    assert(data@.take(0) =~= Seq::<u8>::empty());
    while i < data.len()
        invariant
            i <= data.len(),
            out@ == hex_lower(data@.take(i as int)),
        decreases data.len() - i,
    {
        let b = data[i];
        out.push(hex_char_exec(b / 16));
        out.push(hex_char_exec(b % 16));
        assert(data@.take(i + 1).drop_last() =~= data@.take(i as int));
        i += 1;
    }
    assert(data@.take(data.len() as int) =~= data@);
    out
}

/// Appends the UTF-8 bytes of a text.
pub fn push_utf8(v: &mut Vec<u8>, s: &str)
    ensures
        final(v)@ == old(v)@ + encode_utf8(s@),
{
    let b = s.as_bytes();
    let mut i: usize = 0;
    let ghost start = v@;
    while i < b.len()
        invariant
            i <= b.len(),
            b@ == encode_utf8(s@),
            v@ == start + b@.take(i as int),
        decreases b.len() - i,
    {
        v.push(b[i]);
        i += 1;
        assert(v@ =~= start + b@.take(i as int));
    }
    assert(b@.take(b.len() as int) =~= b@);
}

/// Appends raw bytes.
pub fn push_bytes(v: &mut Vec<u8>, b: &[u8])
    ensures
        final(v)@ == old(v)@ + b@,
{
    let mut i: usize = 0;
    let ghost start = v@;
    while i < b.len()
        invariant
            i <= b.len(),
            v@ == start + b@.take(i as int),
        decreases b.len() - i,
    {
        v.push(b[i]);
        i += 1;
        assert(v@ =~= start + b@.take(i as int));
    }
    assert(b@.take(b.len() as int) =~= b@);
}

} // verus!
