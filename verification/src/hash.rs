use vstd::prelude::*;
use vstd::string::StringExecFns;

verus! {

/// Ring position of a character string, as produced by [`hash`].
///
/// The value is a fixed function of the characters alone; it stands for the
/// first eight bytes of the BLAKE3 digest of the string's UTF-8 encoding,
/// read big-endian.
pub uninterp spec fn hash_of(s: Seq<char>) -> u64;

/// Hash a string to a 64-bit ring position.
///
/// Relies on `blake3::Hasher` (`update`, `finalize`): the 32-byte digest is a
/// fixed function of the input bytes alone. The first eight digest bytes,
/// read big-endian, form the result.
#[verifier::external_body]
pub fn hash(entity: &str) -> (h: u64)
    ensures
        h == hash_of(entity@),
{
    let mut hasher = blake3::Hasher::new();
    hasher.update(entity.as_bytes());
    let result: [u8; 32] = hasher.finalize().into();
    u64::from_be_bytes(result[..8].try_into().unwrap())
}

/// The character for one decimal digit.
pub open spec fn digit_char(d: nat) -> char {
    if d == 0 {
        '0'
    } else if d == 1 {
        '1'
    } else if d == 2 {
        '2'
    } else if d == 3 {
        '3'
    } else if d == 4 {
        '4'
    } else if d == 5 {
        '5'
    } else if d == 6 {
        '6'
    } else if d == 7 {
        '7'
    } else if d == 8 {
        '8'
    } else {
        '9'
    }
}

/// Decimal digit characters of `n`, most significant first.
pub open spec fn spec_digits(n: nat) -> Seq<char>
    decreases n,
{
    if n < 10 {
        seq![digit_char(n)]
    } else {
        spec_digits(n / 10).push(digit_char(n % 10))
    }
}

fn digit_str(d: u16) -> (s: &'static str)
    requires
        d < 10,
    ensures
        s@ == seq![digit_char(d as nat)],
{
    let s: &'static str = if d == 0 {
        "0"
    } else if d == 1 {
        "1"
    } else if d == 2 {
        "2"
    } else if d == 3 {
        "3"
    } else if d == 4 {
        "4"
    } else if d == 5 {
        "5"
    } else if d == 6 {
        "6"
    } else if d == 7 {
        "7"
    } else if d == 8 {
        "8"
    } else {
        "9"
    };
    proof {
        reveal_strlit("0");
        reveal_strlit("1");
        reveal_strlit("2");
        reveal_strlit("3");
        reveal_strlit("4");
        reveal_strlit("5");
        reveal_strlit("6");
        reveal_strlit("7");
        reveal_strlit("8");
        reveal_strlit("9");
        assert(s@ =~= seq![digit_char(d as nat)]);
    }
    s
}

/// Append the decimal rendering of `n` to `out`.
pub fn push_digits(n: u16, out: &mut String)
    ensures
        final(out)@ == old(out)@ + spec_digits(n as nat),
    decreases n,
{
    if n >= 10 {
        push_digits(n / 10, out);
    }
    let d = digit_str(n % 10);
    out.append(d);
    proof {
        assert(out@ =~= old(out)@ + spec_digits(n as nat));
    }
}

/// The label whose hash places virtual node `r` of node `id`: `{id}-{r}`.
pub open spec fn vnode_label(id: Seq<char>, r: nat) -> Seq<char> {
    id + seq!['-'] + spec_digits(r)
}

/// Ring position of virtual node `r` of node `id`.
pub open spec fn vnode_hash(id: Seq<char>, r: nat) -> u64 {
    hash_of(vnode_label(id, r))
}

/// Build the label `{id}-{r}` that is hashed to place a virtual node, and
/// equally the per-replica label `{entity}-{r}` used during placement.
pub fn make_label(id: &str, r: u16) -> (s: String)
    ensures
        s@ == vnode_label(id@, r as nat),
{
    let mut s = String::from_str(id);
    s.append("-");
    push_digits(r, &mut s);
    proof {
        reveal_strlit("-");
        assert(s@ =~= vnode_label(id@, r as nat));
    }
    s
}

} // verus!
