//! Model of the reference accessor: named pointers into the object graph,
//! and the bit-exact naming convention that classifies them.
//!
//! A local boundary ("head") reference is named `refs/dit/<hex-root>/head`;
//! a local tip ("leaf") reference lives under `refs/dit/<hex-root>/leaves/`;
//! remote-scope references live under `refs/remotes/<scope>/dit/<hex-root>/`,
//! where `<scope>` is a nonempty segment without `/`.

use vstd::prelude::*;

use crate::error::Error;

verus! {

/// The value of a reference: its name and the node it designates.
#[verifier::ext_equal]
pub struct RefData {
    pub name: Seq<u8>,
    pub target: u64,
}

/// A named pointer to a node of the object graph.
#[derive(Debug)]
pub struct GitRef {
    pub name: Vec<u8>,
    pub target: u64,
}

impl View for GitRef {
    type V = RefData;

    open spec fn view(&self) -> RefData {
        RefData { name: self.name@, target: self.target }
    }
}

impl DeepView for GitRef {
    type V = RefData;

    open spec fn deep_view(&self) -> RefData {
        self@
    }
}

/// Copy a byte string.
pub fn clone_bytes(v: &Vec<u8>) -> (r: Vec<u8>)
    ensures
        r@ == v@,
{
    let mut r: Vec<u8> = Vec::new();
    let mut i: usize = 0;
    while i < v.len()
        invariant
            0 <= i <= v@.len(),
            r@ == v@.subrange(0, i as int),
        decreases v@.len() - i,
    {
        r.push(v[i]);
        i = i + 1;
    }
    proof {
        assert(r@ =~= v@);
    }
    r
}

impl GitRef {
    /// Copy a reference value.
    pub fn dup(&self) -> (r: GitRef)
        ensures
            r@ == self@,
    {
        GitRef { name: clone_bytes(&self.name), target: self.target }
    }
}

// ------------------------------------------------------------------
// Hexadecimal rendering and parsing of node identifiers.
// ------------------------------------------------------------------

pub open spec fn is_hex_digit(b: u8) -> bool {
    (48 <= b && b <= 57) || (97 <= b && b <= 102) || (65 <= b && b <= 70)
}

pub open spec fn hex_digit_value(b: u8) -> nat {
    if 48 <= b && b <= 57 {
        (b - 48) as nat
    } else if 97 <= b && b <= 102 {
        (b - 97 + 10) as nat
    } else {
        (b - 65 + 10) as nat
    }
}

pub open spec fn all_hex(s: Seq<u8>) -> bool {
    forall|i: int| 0 <= i < s.len() ==> is_hex_digit(#[trigger] s[i])
}

/// The number denoted by a big-endian string of hex digits.
pub open spec fn hex_value(s: Seq<u8>) -> nat
    decreases s.len(),
{
    if s.len() == 0 {
        0
    } else {
        hex_value(s.drop_last()) * 16 + hex_digit_value(s.last())
    }
}

/// The lower-case digit for a value below 16.
pub open spec fn hex_digit_of(n: nat) -> u8 {
    if n < 10 {
        (48 + n) as u8
    } else {
        (97 + n - 10) as u8
    }
}

/// The canonical (shortest, lower-case) hex rendering of a number.
pub open spec fn hex_of(n: nat) -> Seq<u8>
    decreases n,
{
    if n < 16 {
        seq![hex_digit_of(n)]
    } else {
        hex_of(n / 16).push(hex_digit_of(n % 16))
    }
}

pub open spec fn pow16(n: nat) -> nat
    decreases n,
{
    if n == 0 {
        1
    } else {
        16 * pow16((n - 1) as nat)
    }
}

pub proof fn lemma_pow16_pos(n: nat)
    ensures
        pow16(n) >= 1,
    decreases n,
{
    if n > 0 {
        lemma_pow16_pos((n - 1) as nat);
    }
}

pub proof fn lemma_pow16_mono(a: nat, b: nat)
    requires
        a <= b,
    ensures
        pow16(a) <= pow16(b),
        pow16(a) >= 1,
    decreases b,
{
    lemma_pow16_pos(a);
    if a < b {
        lemma_pow16_mono(a, (b - 1) as nat);
    }
}

pub proof fn lemma_pow16_16()
    ensures
        pow16(16) == 0x1_0000_0000_0000_0000,
{
    reveal_with_fuel(pow16, 17);
}

/// Canonical hex renderings round-trip: digits only, between 1 and 16 of
/// them for a 64-bit identifier, denoting the rendered number.
pub proof fn lemma_hex_of_value(n: nat)
    ensures
        all_hex(hex_of(n)),
        hex_value(hex_of(n)) == n,
        1 <= hex_of(n).len(),
        n < pow16(16) ==> hex_of(n).len() <= 16,
    decreases n,
{
    if n < pow16(16) {
        lemma_hex_of_len(n, 16);
    }
    if n < 16 {
        let s = hex_of(n);
        assert(s == seq![hex_digit_of(n)]);
        assert(s.drop_last() =~= Seq::<u8>::empty());
        assert(hex_value(Seq::<u8>::empty()) == 0);
        assert(s.last() == hex_digit_of(n));
        assert(hex_value(s) == hex_digit_value(hex_digit_of(n)));
    } else {
        lemma_hex_of_value(n / 16);
        let s = hex_of(n);
        assert(s == hex_of(n / 16).push(hex_digit_of(n % 16)));
        assert(s.drop_last() =~= hex_of(n / 16));
        assert(s.last() == hex_digit_of(n % 16));
        assert(hex_digit_value(hex_digit_of(n % 16)) == n % 16);
        assert(hex_value(s) == (n / 16) * 16 + n % 16);
        assert((n / 16) * 16 + n % 16 == n) by (nonlinear_arith);
        assert forall|i: int| 0 <= i < s.len() implies is_hex_digit(#[trigger] s[i]) by {
            if i < s.len() - 1 {
                assert(s[i] == hex_of(n / 16)[i]);
            }
        }
    }
}

pub proof fn lemma_hex_of_len(n: nat, k: nat)
    requires
        n < pow16(k),
        k >= 1,
    ensures
        hex_of(n).len() <= k,
    decreases n,
{
    if n < 16 {
    } else {
        assert(pow16(k) == 16 * pow16((k - 1) as nat));
        assert(n / 16 < pow16((k - 1) as nat)) by (nonlinear_arith)
            requires
                n < 16 * pow16((k - 1) as nat),
        ;
        if k - 1 >= 1 {
            lemma_hex_of_len(n / 16, (k - 1) as nat);
        } else {
            assert(pow16(0) == 1);
            assert(n / 16 == 0);
            assert(n < 16);
        }
    }
}

/// Canonical renderings are injective: equal renderings, equal numbers.
pub proof fn lemma_hex_of_injective(a: nat, b: nat)
    requires
        hex_of(a) == hex_of(b),
    ensures
        a == b,
{
    lemma_hex_of_value(a);
    lemma_hex_of_value(b);
}

/// The exec rendering of a digit below 16.
fn hex_digit(d: u64) -> (r: u8)
    requires
        d < 16,
    ensures
        r == hex_digit_of(d as nat),
{
    if d < 10 {
        48 + (d as u8)
    } else {
        97 + (d as u8) - 10
    }
}

/// Render an identifier in canonical hex.
pub fn render_hex(n: u64) -> (r: Vec<u8>)
    ensures
        r@ == hex_of(n as nat),
    decreases n,
{
    if n < 16 {
        let mut r: Vec<u8> = Vec::new();
        r.push(hex_digit(n));
        proof {
            assert(r@ =~= hex_of(n as nat));
        }
        r
    } else {
        let mut r = render_hex(n / 16);
        r.push(hex_digit(n % 16));
        r
    }
}

/// Parse the byte range `[lo, hi)` of `s` as a hex identifier.
///
/// Succeeds exactly on 1 to 16 hex digits; the value then fits in 64 bits.
pub fn parse_hex_range(s: &Vec<u8>, lo: usize, hi: usize) -> (r: Option<u64>)
    requires
        lo <= hi <= s@.len(),
    ensures
        ({
            let seg = s@.subrange(lo as int, hi as int);
            match r {
                Some(n) => 1 <= seg.len() <= 16 && all_hex(seg) && n as nat == hex_value(seg),
                None => !(1 <= seg.len() <= 16 && all_hex(seg)),
            }
        }),
{
    let ghost seg = s@.subrange(lo as int, hi as int);
    if hi - lo < 1 || hi - lo > 16 {
        return None;
    }
    let mut acc: u64 = 0;
    let mut i: usize = lo;
    while i < hi
        invariant
            lo <= i <= hi <= s@.len(),
            hi - lo <= 16,
            seg == s@.subrange(lo as int, hi as int),
            all_hex(seg.subrange(0, i - lo)),
            acc as nat == hex_value(seg.subrange(0, i - lo)),
            (acc as nat) < pow16((i - lo) as nat),
        decreases hi - i,
    {
        let b = s[i];
        proof {
            assert(seg[i - lo] == b);
        }
        let d: u64;
        if 48 <= b && b <= 57 {
            d = (b - 48) as u64;
        } else if 97 <= b && b <= 102 {
            d = (b - 97 + 10) as u64;
        } else if 65 <= b && b <= 70 {
            d = (b - 65 + 10) as u64;
        } else {
            proof {
                assert(!is_hex_digit(seg[i - lo]));
            }
            return None;
        }
        proof {
            assert(is_hex_digit(seg[i - lo]) && d as nat == hex_digit_value(seg[i - lo]));
            lemma_pow16_mono((i - lo) as nat, 15);
            lemma_pow16_16();
            reveal_with_fuel(pow16, 17);
            assert(acc as nat <= pow16(15) - 1);
            assert(16 * (acc as nat) + 15 < pow16(16));
        }
        acc = acc * 16 + d;
        i = i + 1;
        proof {
            let pre = seg.subrange(0, i - lo - 1);
            let cur = seg.subrange(0, i - lo);
            assert(cur.drop_last() =~= pre);
            assert(cur.last() == seg[i - lo - 1]);
            assert forall|j: int| 0 <= j < cur.len() implies is_hex_digit(#[trigger] cur[j]) by {
                if j < cur.len() - 1 {
                    assert(pre[j] == cur[j]);
                }
            }
        }
    }
    proof {
        assert(seg.subrange(0, (hi - lo) as int) =~= seg);
    }
    Some(acc)
}

// ------------------------------------------------------------------
// The naming convention.
// ------------------------------------------------------------------

pub open spec fn slash() -> u8 {
    47
}

/// "refs/dit/"
pub open spec fn local_prefix() -> Seq<u8> {
    seq![114u8, 101u8, 102u8, 115u8, 47u8, 100u8, 105u8, 116u8, 47u8]
}

/// "refs/remotes/"
pub open spec fn remote_prefix() -> Seq<u8> {
    seq![114u8, 101u8, 102u8, 115u8, 47u8, 114u8, 101u8, 109u8, 111u8, 116u8, 101u8, 115u8, 47u8]
}

/// "/head"
pub open spec fn head_suffix() -> Seq<u8> {
    seq![47u8, 104u8, 101u8, 97u8, 100u8]
}

/// "/leaves/"
pub open spec fn leaves_infix() -> Seq<u8> {
    seq![47u8, 108u8, 101u8, 97u8, 118u8, 101u8, 115u8, 47u8]
}

/// "/dit/"
pub open spec fn dit_infix() -> Seq<u8> {
    seq![47u8, 100u8, 105u8, 116u8, 47u8]
}

/// The name of the local boundary reference of the issue rooted at `id`.
pub open spec fn local_head_name(id: u64) -> Seq<u8> {
    local_prefix() + hex_of(id as nat) + head_suffix()
}

/// The name prefix of local tip references of the issue rooted at `id`.
pub open spec fn local_leaf_prefix(id: u64) -> Seq<u8> {
    local_prefix() + hex_of(id as nat) + leaves_infix()
}

pub open spec fn is_local_leaf_name(s: Seq<u8>, id: u64) -> bool {
    let p = local_leaf_prefix(id);
    s.len() > p.len() && s.subrange(0, p.len() as int) == p
}

/// First position `>= from` holding byte `b`, or -1.
pub open spec fn first_index_of(s: Seq<u8>, from: int, b: u8) -> int
    decreases s.len() - from when 0 <= from
{
    if from >= s.len() {
        -1
    } else if s[from] == b {
        from
    } else {
        first_index_of(s, from + 1, b)
    }
}

/// The tail, after the remote scope segment, of a remote boundary
/// reference name: "/dit/<hex-root>/head".
pub open spec fn remote_head_tail(id: u64) -> Seq<u8> {
    dit_infix() + hex_of(id as nat) + head_suffix()
}

/// The tail, after the remote scope segment, under which every
/// remote-scope reference of the issue lives: "/dit/<hex-root>/".
pub open spec fn remote_any_tail(id: u64) -> Seq<u8> {
    dit_infix() + hex_of(id as nat) + seq![slash()]
}

/// Whether `s` names the boundary reference of the issue rooted at `id`
/// in some remote scope: "refs/remotes/<scope>/dit/<hex-root>/head",
/// the scope being the (nonempty) segment up to the first `/`.
pub open spec fn is_remote_head_name(s: Seq<u8>, id: u64) -> bool {
    let p = remote_prefix();
    let j = first_index_of(s, p.len() as int, slash());
    &&& s.len() > p.len()
    &&& s.subrange(0, p.len() as int) == p
    &&& j > p.len()
    &&& s.subrange(j, s.len() as int) == remote_head_tail(id)
}

/// Whether `s` names any remote-scope reference of the issue rooted at
/// `id`: "refs/remotes/<scope>/dit/<hex-root>/<rest>", `<rest>` nonempty.
pub open spec fn is_remote_ref_name(s: Seq<u8>, id: u64) -> bool {
    let p = remote_prefix();
    let j = first_index_of(s, p.len() as int, slash());
    &&& s.len() > p.len()
    &&& s.subrange(0, p.len() as int) == p
    &&& j > p.len()
    &&& s.len() > j + remote_any_tail(id).len()
    &&& s.subrange(j, j + remote_any_tail(id).len()) == remote_any_tail(id)
}

/// Boundary names are injective in the root: equal head names name the
/// same issue.
pub proof fn lemma_head_name_injective(a: u64, b: u64)
    requires
        local_head_name(a) == local_head_name(b),
    ensures
        a == b,
{
    let p = local_prefix().len() as int;
    let ha = hex_of(a as nat);
    let hb = hex_of(b as nat);
    lemma_hex_of_value(a as nat);
    lemma_hex_of_value(b as nat);
    assert(local_head_name(a).len() == p + ha.len() + head_suffix().len());
    assert(local_head_name(b).len() == p + hb.len() + head_suffix().len());
    assert(ha.len() == hb.len());
    assert forall|i: int| 0 <= i < ha.len() implies ha[i] == hb[i] by {
        assert(local_head_name(a)[p + i] == ha[i]);
        assert(local_head_name(b)[p + i] == hb[i]);
    }
    assert(ha =~= hb);
    lemma_hex_of_injective(a as nat, b as nat);
}

/// A tip reference name built by the convention is never a boundary name,
/// for any issue: the slash opening its "leaves" directory falls where a
/// boundary name may hold only hex digits.
pub proof fn lemma_leaf_name_not_any_head(id1: u64, t: u64, id: u64)
    ensures
        local_leaf_prefix(id1) + hex_of(t as nat) != local_head_name(id),
{
    let p = local_prefix().len() as int;
    let h1 = hex_of(id1 as nat);
    let ht = hex_of(t as nat);
    let hid = hex_of(id as nat);
    let n = local_leaf_prefix(id1) + ht;
    let h = local_head_name(id);
    lemma_hex_of_value(id1 as nat);
    lemma_hex_of_value(t as nat);
    lemma_hex_of_value(id as nat);
    if n == h {
        assert(n.len() == p + h1.len() + leaves_infix().len() + ht.len());
        assert(h.len() == p + hid.len() + head_suffix().len());
        assert(hid.len() == h1.len() + 3 + ht.len());
        assert(n[p + h1.len()] == leaves_infix()[0]);
        assert(leaves_infix()[0] == 47);
        assert(h[p + h1.len()] == hid[h1.len() as int]);
        assert(is_hex_digit(hid[h1.len() as int]));
        assert(!is_hex_digit(47u8));
    }
}

/// A name under the local scope prefix is never remote-scoped: the two
/// prefixes diverge.
pub proof fn lemma_local_prefixed_not_remote(n: Seq<u8>, id: u64)
    requires
        n.len() >= local_prefix().len(),
        n.subrange(0, local_prefix().len() as int) == local_prefix(),
    ensures
        !is_remote_head_name(n, id),
        !is_remote_ref_name(n, id),
{
    assert(n[5] == n.subrange(0, local_prefix().len() as int)[5]);
    assert(local_prefix()[5] == 100);
    if is_remote_head_name(n, id) || is_remote_ref_name(n, id) {
        assert(n[5] == n.subrange(0, remote_prefix().len() as int)[5]);
        assert(remote_prefix()[5] == 114);
    }
}

/// The built local head name stands under the local scope prefix.
pub proof fn lemma_head_name_local_prefixed(id: u64)
    ensures
        local_head_name(id).len() >= local_prefix().len(),
        local_head_name(id).subrange(0, local_prefix().len() as int) == local_prefix(),
{
    lemma_hex_of_value(id as nat);
    assert(local_head_name(id).subrange(0, local_prefix().len() as int) =~= local_prefix());
}

/// The built local leaf name stands under the local scope prefix.
pub proof fn lemma_leaf_name_local_prefixed(id: u64, t: u64)
    ensures
        (local_leaf_prefix(id) + hex_of(t as nat)).len() >= local_prefix().len(),
        (local_leaf_prefix(id) + hex_of(t as nat)).subrange(0, local_prefix().len() as int)
            == local_prefix(),
{
    lemma_hex_of_value(id as nat);
    lemma_hex_of_value(t as nat);
    assert((local_leaf_prefix(id) + hex_of(t as nat)).subrange(0, local_prefix().len() as int)
        =~= local_prefix());
}

// ------------------------------------------------------------------
// Exec builders and matchers for the convention.
// ------------------------------------------------------------------

/// Append `tail` to `v`.
fn append_bytes(v: &mut Vec<u8>, tail: &Vec<u8>)
    ensures
        final(v)@ == old(v)@ + tail@,
{
    let mut i: usize = 0;
    while i < tail.len()
        invariant
            0 <= i <= tail@.len(),
            v@ == old(v)@ + tail@.subrange(0, i as int),
        decreases tail@.len() - i,
    {
        let ghost pre = v@;
        v.push(tail[i]);
        proof {
            assert(pre.push(tail@[i as int]) =~= old(v)@ + tail@.subrange(0, i + 1));
        }
        i = i + 1;
    }
    proof {
        assert(old(v)@ + tail@.subrange(0, tail@.len() as int) =~= old(v)@ + tail@);
    }
}

/// "refs/dit/"
fn local_prefix_vec() -> (r: Vec<u8>)
    ensures
        r@ == local_prefix(),
{
    let mut r: Vec<u8> = Vec::new();
    r.push(114);
    r.push(101);
    r.push(102);
    r.push(115);
    r.push(47);
    r.push(100);
    r.push(105);
    r.push(116);
    r.push(47);
    proof {
        assert(r@ =~= local_prefix());
    }
    r
}

/// "refs/remotes/"
fn remote_prefix_vec() -> (r: Vec<u8>)
    ensures
        r@ == remote_prefix(),
{
    let mut r: Vec<u8> = Vec::new();
    r.push(114);
    r.push(101);
    r.push(102);
    r.push(115);
    r.push(47);
    r.push(114);
    r.push(101);
    r.push(109);
    r.push(111);
    r.push(116);
    r.push(101);
    r.push(115);
    r.push(47);
    proof {
        assert(r@ =~= remote_prefix());
    }
    r
}

/// "/head"
fn head_suffix_vec() -> (r: Vec<u8>)
    ensures
        r@ == head_suffix(),
{
    let mut r: Vec<u8> = Vec::new();
    r.push(47);
    r.push(104);
    r.push(101);
    r.push(97);
    r.push(100);
    proof {
        assert(r@ =~= head_suffix());
    }
    r
}

/// "/leaves/"
fn leaves_infix_vec() -> (r: Vec<u8>)
    ensures
        r@ == leaves_infix(),
{
    let mut r: Vec<u8> = Vec::new();
    r.push(47);
    r.push(108);
    r.push(101);
    r.push(97);
    r.push(118);
    r.push(101);
    r.push(115);
    r.push(47);
    proof {
        assert(r@ =~= leaves_infix());
    }
    r
}

/// "/dit/"
fn dit_infix_vec() -> (r: Vec<u8>)
    ensures
        r@ == dit_infix(),
{
    let mut r: Vec<u8> = Vec::new();
    r.push(47);
    r.push(100);
    r.push(105);
    r.push(116);
    r.push(47);
    proof {
        assert(r@ =~= dit_infix());
    }
    r
}

/// Build the local boundary reference name for the issue rooted at `id`.
pub fn local_head_name_vec(id: u64) -> (r: Vec<u8>)
    ensures
        r@ == local_head_name(id),
{
    let mut r = local_prefix_vec();
    let hex = render_hex(id);
    append_bytes(&mut r, &hex);
    let suffix = head_suffix_vec();
    append_bytes(&mut r, &suffix);
    r
}

/// Build the local tip reference name prefix for the issue rooted at `id`.
pub fn local_leaf_prefix_vec(id: u64) -> (r: Vec<u8>)
    ensures
        r@ == local_leaf_prefix(id),
{
    let mut r = local_prefix_vec();
    let hex = render_hex(id);
    append_bytes(&mut r, &hex);
    let infix = leaves_infix_vec();
    append_bytes(&mut r, &infix);
    r
}

/// Build the local tip reference name for a tip at node `target` of the
/// issue rooted at `id`: "refs/dit/<hex-root>/leaves/<hex-target>".
pub fn local_leaf_name_vec(id: u64, target: u64) -> (r: Vec<u8>)
    ensures
        r@ == local_leaf_prefix(id) + hex_of(target as nat),
        is_local_leaf_name(r@, id),
{
    let mut r = local_leaf_prefix_vec(id);
    let hex = render_hex(target);
    append_bytes(&mut r, &hex);
    proof {
        lemma_hex_of_value(target as nat);
        assert(r@.subrange(0, local_leaf_prefix(id).len() as int) =~= local_leaf_prefix(id));
    }
    r
}

/// Whether two byte strings are equal.
pub fn bytes_eq(a: &Vec<u8>, b: &Vec<u8>) -> (r: bool)
    ensures
        r == (a@ == b@),
{
    if a.len() != b.len() {
        proof {
            assert(a@.len() != b@.len());
        }
        return false;
    }
    let mut i: usize = 0;
    while i < a.len()
        invariant
            0 <= i <= a@.len(),
            a@.len() == b@.len(),
            forall|j: int| 0 <= j < i ==> a@[j] == b@[j],
        decreases a@.len() - i,
    {
        if a[i] != b[i] {
            return false;
        }
        i = i + 1;
    }
    proof {
        assert(a@ =~= b@);
    }
    true
}

/// Whether `pat` occurs in `s` at position `pos`.
pub fn bytes_match_at(s: &Vec<u8>, pos: usize, pat: &Vec<u8>) -> (r: bool)
    requires
        pos <= s@.len(),
    ensures
        r == (pos + pat@.len() <= s@.len() && s@.subrange(pos as int, pos + pat@.len()) == pat@),
{
    if s.len() - pos < pat.len() {
        return false;
    }
    let n = s.len();
    let mut i: usize = 0;
    while i < pat.len()
        invariant
            0 <= i <= pat@.len(),
            n == s@.len(),
            pos + pat@.len() <= n,
            forall|j: int| 0 <= j < i ==> s@[pos + j] == pat@[j],
        decreases pat@.len() - i,
    {
        if s[pos + i] != pat[i] {
            proof {
                assert(s@.subrange(pos as int, pos + pat@.len())[i as int] == s@[pos + i]);
            }
            return false;
        }
        i = i + 1;
    }
    proof {
        assert(s@.subrange(pos as int, pos + pat@.len()) =~= pat@);
    }
    true
}

/// Find the first `/` at or after `from`.
fn find_slash_from(s: &Vec<u8>, from: usize) -> (r: Option<usize>)
    ensures
        match r {
            Some(i) => from <= i && i < s@.len() && s@[i as int] == slash()
                && i as int == first_index_of(s@, from as int, slash()),
            None => first_index_of(s@, from as int, slash()) == -1,
        },
{
    let mut i: usize = from;
    if i > s.len() {
        proof {
            assert(first_index_of(s@, from as int, slash()) == -1);
        }
        return None;
    }
    while i < s.len()
        invariant
            from <= i <= s@.len(),
            first_index_of(s@, from as int, slash()) == first_index_of(s@, i as int, slash()),
        decreases s@.len() - i,
    {
        if s[i] == 47 {
            return Some(i);
        }
        i = i + 1;
    }
    None
}

/// Whether `name` is the local boundary reference name for root `id`.
pub fn is_local_head(name: &Vec<u8>, id: u64) -> (r: bool)
    ensures
        r == (name@ == local_head_name(id)),
{
    let expected = local_head_name_vec(id);
    bytes_eq(name, &expected)
}

/// Whether `name` is a local tip reference name for root `id`.
pub fn is_local_leaf(name: &Vec<u8>, id: u64) -> (r: bool)
    ensures
        r == is_local_leaf_name(name@, id),
{
    let prefix = local_leaf_prefix_vec(id);
    if name.len() <= prefix.len() {
        return false;
    }
    bytes_match_at(name, 0, &prefix)
}

/// Whether `name` is a remote boundary reference name for root `id`.
pub fn is_remote_head(name: &Vec<u8>, id: u64) -> (r: bool)
    ensures
        r == is_remote_head_name(name@, id),
{
    let prefix = remote_prefix_vec();
    if name.len() <= prefix.len() {
        return false;
    }
    if !bytes_match_at(name, 0, &prefix) {
        return false;
    }
    match find_slash_from(name, prefix.len()) {
        None => false,
        Some(j) => {
            if j <= prefix.len() {
                return false;
            }
            let mut tail = dit_infix_vec();
            let hex = render_hex(id);
            append_bytes(&mut tail, &hex);
            let suffix = head_suffix_vec();
            append_bytes(&mut tail, &suffix);
            proof {
                assert(tail@ =~= remote_head_tail(id));
            }
            if name.len() - j != tail.len() {
                proof {
                    assert(name@.subrange(j as int, name@.len() as int).len()
                        != remote_head_tail(id).len());
                }
                return false;
            }
            let r = bytes_match_at(name, j, &tail);
            proof {
                assert(name@.subrange(j as int, name@.len() as int)
                    =~= name@.subrange(j as int, j + tail@.len()));
            }
            r
        },
    }
}

/// Whether `name` is any remote-scope reference name for root `id`.
pub fn is_remote_ref(name: &Vec<u8>, id: u64) -> (r: bool)
    ensures
        r == is_remote_ref_name(name@, id),
{
    let prefix = remote_prefix_vec();
    if name.len() <= prefix.len() {
        return false;
    }
    if !bytes_match_at(name, 0, &prefix) {
        return false;
    }
    match find_slash_from(name, prefix.len()) {
        None => false,
        Some(j) => {
            if j <= prefix.len() {
                return false;
            }
            let mut tail = dit_infix_vec();
            let hex = render_hex(id);
            append_bytes(&mut tail, &hex);
            tail.push(47);
            proof {
                assert(tail@ =~= remote_any_tail(id));
            }
            if name.len() - j <= tail.len() {
                return false;
            }
            bytes_match_at(name, j, &tail)
        },
    }
}

// ------------------------------------------------------------------
// The reference store.
// ------------------------------------------------------------------

/// Model of the reference accessor: the set of live references, unique by
/// name. Only references are ever mutated; the object graph is read-only.
pub struct RefStore {
    pub refs: Vec<GitRef>,
}

impl View for RefStore {
    type V = Seq<RefData>;

    open spec fn view(&self) -> Seq<RefData> {
        self.refs.deep_view()
    }
}

/// Whether a reference list holds a reference with the given name.
pub open spec fn has_named(refs: Seq<RefData>, name: Seq<u8>) -> bool {
    exists|i: int| 0 <= i < refs.len() && refs[i].name == name
}

/// The first reference with the given name, if any.
pub open spec fn find_named(refs: Seq<RefData>, name: Seq<u8>) -> Option<RefData>
    decreases refs.len(),
{
    if refs.len() == 0 {
        None
    } else if refs[0].name == name {
        Some(refs[0])
    } else {
        find_named(refs.skip(1), name)
    }
}

/// The index bearing the given name (unique in a well-formed store).
pub open spec fn named_index(refs: Seq<RefData>, name: Seq<u8>) -> int {
    choose|i: int| 0 <= i < refs.len() && refs[i].name == name
}

/// A forced reference update as a value: the named entry re-pointed, or a
/// new entry appended when the name is free; nothing else changes.
pub open spec fn set_ref(refs: Seq<RefData>, name: Seq<u8>, target: u64) -> Seq<RefData> {
    if has_named(refs, name) {
        refs.update(named_index(refs, name), RefData { name, target })
    } else {
        refs.push(RefData { name, target })
    }
}

pub proof fn lemma_find_named(refs: Seq<RefData>, name: Seq<u8>)
    ensures
        match find_named(refs, name) {
            Some(r) => has_named(refs, name) && r.name == name
                && exists|i: int| 0 <= i < refs.len() && refs[i] == r,
            None => !has_named(refs, name),
        },
    decreases refs.len(),
{
    if refs.len() == 0 {
    } else if refs[0].name == name {
        assert(refs[0] == refs[0]);
    } else {
        lemma_find_named(refs.skip(1), name);
        match find_named(refs.skip(1), name) {
            Some(r) => {
                let i = choose|i: int| 0 <= i < refs.skip(1).len() && refs.skip(1)[i] == r;
                assert(refs[i + 1] == r);
            },
            None => {
                assert forall|i: int| 0 <= i < refs.len() implies refs[i].name != name by {
                    if i > 0 {
                        assert(refs.skip(1)[i - 1] == refs[i]);
                    }
                }
            },
        }
    }
}

/// A filtered sequence keeps exactly the elements satisfying the predicate,
/// one step at a time.
pub proof fn lemma_filter_push<A>(s: Seq<A>, x: A, p: spec_fn(A) -> bool)
    ensures
        s.push(x).filter(p) == if p(x) {
            s.filter(p).push(x)
        } else {
            s.filter(p)
        },
    decreases s.len(),
{
    reveal(Seq::filter);
    assert(s.push(x).drop_last() =~= s);
    assert(s.push(x).last() == x);
}

/// With unique names, the reference a lookup returns is the one element
/// bearing the name.
pub proof fn lemma_find_named_unique(refs: Seq<RefData>, name: Seq<u8>, r: RefData)
    requires
        forall|i: int, j: int|
            0 <= i < refs.len() && 0 <= j < refs.len() && i != j
                ==> #[trigger] refs[i].name != #[trigger] refs[j].name,
        refs.contains(r),
        r.name == name,
    ensures
        find_named(refs, name) == Some(r),
{
    lemma_find_named(refs, name);
    let w = choose|w: int| 0 <= w < refs.len() && refs[w] == r;
    match find_named(refs, name) {
        Some(r2) => {
            let q = choose|q: int| 0 <= q < refs.len() && refs[q] == r2;
            assert(r2 == r) by {
                if q != w {
                    assert(refs[q].name != refs[w].name);
                }
            }
        },
        None => {
            assert(refs[w].name == name);
            assert(has_named(refs, name));
        },
    }
}

/// Successive filters compose into a filter by the conjunction.
pub proof fn lemma_filter_compose<A>(s: Seq<A>, p: spec_fn(A) -> bool, q: spec_fn(A) -> bool)
    ensures
        s.filter(p).filter(q) == s.filter(|x: A| p(x) && q(x)),
    decreases s.len(),
{
    reveal(Seq::filter);
    if s.len() > 0 {
        lemma_filter_compose(s.drop_last(), p, q);
        let c = |x: A| p(x) && q(x);
        assert(s.filter(c) == if c(s.last()) {
            s.drop_last().filter(c).push(s.last())
        } else {
            s.drop_last().filter(c)
        });
        if p(s.last()) {
            assert(s.filter(p) == s.drop_last().filter(p).push(s.last()));
            lemma_filter_push(s.drop_last().filter(p), s.last(), q);
        }
    }
}

/// Filters by pointwise-equal predicates agree.
pub proof fn lemma_filter_congruent<A>(s: Seq<A>, p: spec_fn(A) -> bool, q: spec_fn(A) -> bool)
    requires
        forall|i: int| 0 <= i < s.len() ==> p(#[trigger] s[i]) == q(s[i]),
    ensures
        s.filter(p) == s.filter(q),
    decreases s.len(),
{
    reveal(Seq::filter);
    if s.len() > 0 {
        assert forall|i: int| 0 <= i < s.drop_last().len()
            implies p(#[trigger] s.drop_last()[i]) == q(s.drop_last()[i]) by {
            assert(s.drop_last()[i] == s[i]);
        }
        lemma_filter_congruent(s.drop_last(), p, q);
        assert(p(s.last()) == q(s.last()));
    }
}

/// A filtered sequence's elements are elements of the original satisfying
/// the predicate, and every such element is kept.
pub proof fn lemma_filter_contains_all<A>(s: Seq<A>, p: spec_fn(A) -> bool)
    ensures
        forall|x: A| #[trigger] s.filter(p).contains(x) <==> exists|i: int|
            0 <= i < s.len() && s[i] == x && p(x),
    decreases s.len(),
{
    reveal(Seq::filter);
    if s.len() == 0 {
        assert forall|x: A| !(#[trigger] s.filter(p).contains(x)) by {
            assert(s.filter(p).len() == 0);
        }
    } else {
        lemma_filter_contains_all(s.drop_last(), p);
        let f = s.filter(p);
        let fd = s.drop_last().filter(p);
        assert forall|x: A| #[trigger] f.contains(x) implies exists|i: int|
            0 <= i < s.len() && s[i] == x && p(x) by {
            if p(s.last()) {
                assert(f == fd.push(s.last()));
                let j = choose|j: int| 0 <= j < f.len() && f[j] == x;
                if j < f.len() - 1 {
                    assert(fd[j] == x);
                    assert(fd.contains(x));
                    let i = choose|i: int|
                        0 <= i < s.drop_last().len() && s.drop_last()[i] == x && p(x);
                    assert(s[i] == x);
                } else {
                    assert(x == s.last());
                    assert(s[s.len() - 1] == x);
                }
            } else {
                assert(f == fd);
                assert(fd.contains(x));
                let i = choose|i: int|
                    0 <= i < s.drop_last().len() && s.drop_last()[i] == x && p(x);
                assert(s[i] == x);
            }
        }
        assert forall|x: A| (exists|i: int| 0 <= i < s.len() && s[i] == x && p(x))
            implies #[trigger] f.contains(x) by {
            let i = choose|i: int| 0 <= i < s.len() && s[i] == x && p(x);
            if i < s.len() - 1 {
                assert(s.drop_last()[i] == x);
                assert(fd.contains(x));
                let j = choose|j: int| 0 <= j < fd.len() && fd[j] == x;
                if p(s.last()) {
                    assert(f == fd.push(s.last()));
                    assert(f[j] == x);
                } else {
                    assert(f == fd);
                }
            } else {
                assert(x == s.last());
                assert(p(s.last()));
                assert(f == fd.push(s.last()));
                assert(f[f.len() - 1] == x);
            }
        }
    }
}

/// In a store with unique names, filtering commutes with name lookup: the
/// named reference survives exactly when the predicate keeps it.
pub proof fn lemma_find_named_filter(s: Seq<RefData>, p: spec_fn(RefData) -> bool, n: Seq<u8>)
    requires
        forall|i: int, j: int|
            0 <= i < s.len() && 0 <= j < s.len() && i != j
                ==> #[trigger] s[i].name != #[trigger] s[j].name,
    ensures
        find_named(s.filter(p), n) == (match find_named(s, n) {
            Some(h) => if p(h) {
                Some(h)
            } else {
                None
            },
            None => None,
        }),
{
    lemma_find_named(s, n);
    lemma_find_named(s.filter(p), n);
    lemma_filter_contains_all(s, p);
    match find_named(s, n) {
        Some(h) => {
            let w = choose|w: int| 0 <= w < s.len() && s[w] == h;
            if p(h) {
                assert(s.filter(p).contains(h));
                match find_named(s.filter(p), n) {
                    Some(r2) => {
                        let q2 = choose|q2: int|
                            0 <= q2 < s.filter(p).len() && s.filter(p)[q2] == r2;
                        assert(s.filter(p).contains(r2));
                        let q = choose|q: int| 0 <= q < s.len() && s[q] == r2 && p(r2);
                        assert(r2 == h) by {
                            if q != w {
                                assert(s[q].name != s[w].name);
                            }
                        }
                    },
                    None => {
                        let hq = choose|hq: int|
                            0 <= hq < s.filter(p).len() && s.filter(p)[hq] == h;
                        assert(has_named(s.filter(p), n));
                    },
                }
            } else {
                match find_named(s.filter(p), n) {
                    Some(r2) => {
                        let q2 = choose|q2: int|
                            0 <= q2 < s.filter(p).len() && s.filter(p)[q2] == r2;
                        assert(s.filter(p).contains(r2));
                        let q = choose|q: int| 0 <= q < s.len() && s[q] == r2 && p(r2);
                        assert(r2 == h) by {
                            if q != w {
                                assert(s[q].name != s[w].name);
                            }
                        }
                        assert(false);
                    },
                    None => {},
                }
            }
        },
        None => {
            match find_named(s.filter(p), n) {
                Some(r2) => {
                    let q2 = choose|q2: int| 0 <= q2 < s.filter(p).len() && s.filter(p)[q2] == r2;
                    assert(s.filter(p).contains(r2));
                    let q = choose|q: int| 0 <= q < s.len() && s[q] == r2 && p(r2);
                    assert(has_named(s, n));
                },
                None => {},
            }
        },
    }
}


/// Filtering with an everywhere-true predicate keeps the sequence.
pub proof fn lemma_filter_all_true<A>(s: Seq<A>, p: spec_fn(A) -> bool)
    requires
        forall|i: int| 0 <= i < s.len() ==> p(#[trigger] s[i]),
    ensures
        s.filter(p) == s,
    decreases s.len(),
{
    reveal(Seq::filter);
    if s.len() > 0 {
        assert forall|i: int| 0 <= i < s.drop_last().len() implies p(#[trigger] s.drop_last()[i]) by {
            assert(s.drop_last()[i] == s[i]);
        }
        lemma_filter_all_true(s.drop_last(), p);
        assert(p(s.last()));
        assert(s.drop_last().push(s.last()) =~= s);
    }
}

impl RefStore {
    /// Reference names are unique.
    pub open spec fn wf(self) -> bool {
        forall|i: int, j: int|
            0 <= i < self@.len() && 0 <= j < self@.len() && i != j
                ==> #[trigger] self@[i].name != #[trigger] self@[j].name
    }

    /// An empty store.
    pub fn new() -> (s: RefStore)
        ensures
            s.wf(),
            s@.len() == 0,
    {
        let s = RefStore { refs: Vec::new() };
        proof {
            assert(s@ =~= Seq::<RefData>::empty());
        }
        s
    }

    /// The index of the reference with this name, if any.
    fn index_of_name(&self, name: &Vec<u8>) -> (r: Option<usize>)
        ensures
            match r {
                Some(i) => i < self@.len() && self@[i as int].name == name@,
                None => !has_named(self@, name@),
            },
    {
        let mut i: usize = 0;
        let n = self.refs.len();
        proof {
            assert(self@.len() == self.refs@.len());
        }
        while i < n
            invariant
                0 <= i <= n,
                n == self@.len(),
                n == self.refs@.len(),
                forall|j: int| 0 <= j < i ==> #[trigger] self@[j].name != name@,
            decreases n - i,
        {
            proof {
                assert(self@[i as int] == self.refs@[i as int].deep_view());
            }
            if bytes_eq(&self.refs[i].name, name) {
                return Some(i);
            }
            i = i + 1;
        }
        None
    }

    /// Whether a reference with this name exists.
    pub fn has(&self, name: &Vec<u8>) -> (r: bool)
        requires
            self.wf(),
        ensures
            r == has_named(self@, name@),
    {
        self.index_of_name(name).is_some()
    }

    /// Create or forcibly update the reference with this name ("forced
    /// update": no fast-forward check).
    pub fn set(&mut self, name: Vec<u8>, target: u64)
        requires
            old(self).wf(),
        ensures
            final(self).wf(),
            final(self)@ == set_ref(old(self)@, name@, target),
    {
        let ghost old_view = self@;
        match self.index_of_name(&name) {
            Some(i) => {
                let gr = GitRef { name, target };
                self.refs[i] = gr;
                proof {
                    assert(self@ =~= old_view.update(i as int, RefData { name: gr.name@, target }));
                    assert(has_named(old_view, gr.name@));
                    let j = named_index(old_view, gr.name@);
                    assert(0 <= j < old_view.len() && old_view[j].name == gr.name@);
                    assert(j == i) by {
                        if j != i {
                            assert(old_view[j].name != old_view[i as int].name);
                        }
                    }
                    assert forall|a: int, b: int|
                        0 <= a < self@.len() && 0 <= b < self@.len() && a != b
                            implies #[trigger] self@[a].name != #[trigger] self@[b].name by {
                        assert(old_view[a].name != old_view[b].name);
                    }
                }
            },
            None => {
                let gr = GitRef { name, target };
                let ghost new_data = RefData { name: gr.name@, target };
                self.refs.push(gr);
                proof {
                    assert(!has_named(old_view, gr.name@));
                    assert(self@ =~= old_view.push(new_data));
                    assert forall|a: int, b: int|
                        0 <= a < self@.len() && 0 <= b < self@.len() && a != b
                            implies #[trigger] self@[a].name != #[trigger] self@[b].name by {
                        if a < old_view.len() && b < old_view.len() {
                            assert(old_view[a].name != old_view[b].name);
                        }
                    }
                }
            },
        }
    }

    /// Delete the reference with this name, if present.
    pub fn delete(&mut self, name: &Vec<u8>)
        requires
            old(self).wf(),
        ensures
            final(self).wf(),
            final(self)@ == old(self)@.filter(|r: RefData| r.name != name@),
    {
        let ghost old_view = self@;
        let ghost p = |r: RefData| r.name != name@;
        match self.index_of_name(name) {
            Some(i) => {
                self.refs.remove(i);
                proof {
                    assert(self@ =~= old_view.subrange(0, i as int)
                        + old_view.subrange(i + 1, old_view.len() as int));
                    let pre = old_view.subrange(0, i as int);
                    let mid = seq![old_view[i as int]];
                    let post = old_view.subrange(i + 1, old_view.len() as int);
                    assert(old_view =~= pre + mid + post);
                    assert forall|j: int| 0 <= j < pre.len() implies p(#[trigger] pre[j]) by {
                        assert(pre[j] == old_view[j]);
                        assert(old_view[j].name != old_view[i as int].name);
                    }
                    assert forall|j: int| 0 <= j < post.len() implies p(#[trigger] post[j]) by {
                        assert(post[j] == old_view[i + 1 + j]);
                        assert(old_view[i + 1 + j].name != old_view[i as int].name);
                    }
                    lemma_filter_all_true(pre, p);
                    lemma_filter_all_true(post, p);
                    Seq::filter_distributes_over_add(pre + mid, post, p);
                    Seq::filter_distributes_over_add(pre, mid, p);
                    reveal(Seq::filter);
                    assert(!p(old_view[i as int]));
                    assert(mid.last() == old_view[i as int]);
                    assert(mid.drop_last() =~= Seq::<RefData>::empty());
                    assert(mid.filter(p) == mid.drop_last().filter(p));
                    assert(mid.drop_last().filter(p).len() == 0);
                    assert(mid.filter(p) =~= Seq::<RefData>::empty());
                    assert((pre + mid).filter(p) =~= pre);
                    assert((pre + mid + post).filter(p) =~= pre + post);
                    assert(old_view.filter(p) == pre + post);
                    assert forall|a: int, b: int|
                        0 <= a < self@.len() && 0 <= b < self@.len() && a != b
                            implies #[trigger] self@[a].name != #[trigger] self@[b].name by {
                        let a0 = if a < i { a } else { a + 1 };
                        let b0 = if b < i { b } else { b + 1 };
                        assert(self@[a] == old_view[a0] && self@[b] == old_view[b0]);
                        assert(old_view[a0].name != old_view[b0].name);
                    }
                }
            },
            None => {
                proof {
                    assert forall|j: int| 0 <= j < old_view.len() implies p(#[trigger] old_view[j]) by {}
                    lemma_filter_all_true(old_view, p);
                }
            },
        }
    }

    /// The first reference named as the local boundary reference of the
    /// issue rooted at `id`, if any.
    pub fn local_head(&self, id: u64) -> (r: Option<GitRef>)
        ensures
            match r {
                Some(gr) => find_named(self@, local_head_name(id)) == Some(gr@),
                None => find_named(self@, local_head_name(id)) is None,
            },
    {
        let name = local_head_name_vec(id);
        let ghost whole = self@;
        let mut i: usize = 0;
        let n = self.refs.len();
        proof {
            assert(whole.skip(0) =~= whole);
        }
        while i < n
            invariant
                0 <= i <= n,
                n == self@.len(),
                n == self.refs@.len(),
                whole == self@,
                name@ == local_head_name(id),
                find_named(whole, name@) == find_named(whole.skip(i as int), name@),
            decreases n - i,
        {
            proof {
                assert(self@[i as int] == self.refs@[i as int].deep_view());
                assert(whole.skip(i as int)[0] == whole[i as int]);
            }
            if bytes_eq(&self.refs[i].name, &name) {
                let r = self.refs[i].dup();
                proof {
                    assert(find_named(whole.skip(i as int), name@) == Some(whole[i as int]));
                }
                return Some(r);
            }
            proof {
                assert(whole.skip(i as int).skip(1) =~= whole.skip(i + 1));
            }
            i = i + 1;
        }
        proof {
            assert(whole.skip(n as int) =~= Seq::<RefData>::empty());
        }
        None
    }

    /// All local tip references of the issue rooted at `id`, in store order.
    pub fn local_leaves(&self, id: u64) -> (v: Vec<GitRef>)
        ensures
            v.deep_view() == self@.filter(|r: RefData| is_local_leaf_name(r.name, id)),
    {
        let ghost p = |r: RefData| is_local_leaf_name(r.name, id);
        let mut v: Vec<GitRef> = Vec::new();
        let mut i: usize = 0;
        let n = self.refs.len();
        proof {
            assert(self@.subrange(0, 0) =~= Seq::<RefData>::empty());
            reveal(Seq::filter);
            assert(v.deep_view() =~= self@.subrange(0, 0).filter(p));
        }
        while i < n
            invariant
                0 <= i <= n,
                n == self@.len(),
                n == self.refs@.len(),
                v.deep_view() == self@.subrange(0, i as int).filter(p),
                p == (|r: RefData| is_local_leaf_name(r.name, id)),
            decreases n - i,
        {
            proof {
                assert(self@[i as int] == self.refs@[i as int].deep_view());
            }
            let ghost pre = self@.subrange(0, i as int);
            if is_local_leaf(&self.refs[i].name, id) {
                let ghost old_dv = v.deep_view();
                let gr = self.refs[i].dup();
                v.push(gr);
                proof {
                    assert(v.deep_view() =~= old_dv.push(self@[i as int]));
                }
            }
            proof {
                assert(self@.subrange(0, i + 1) =~= pre.push(self@[i as int]));
                lemma_filter_push(pre, self@[i as int], p);
            }
            i = i + 1;
        }
        proof {
            assert(self@.subrange(0, n as int) =~= self@);
        }
        v
    }

    /// All remote boundary references of the issue rooted at `id`.
    pub fn remote_heads(&self, id: u64) -> (v: Vec<GitRef>)
        ensures
            v.deep_view() == self@.filter(|r: RefData| is_remote_head_name(r.name, id)),
    {
        let ghost p = |r: RefData| is_remote_head_name(r.name, id);
        let mut v: Vec<GitRef> = Vec::new();
        let mut i: usize = 0;
        let n = self.refs.len();
        proof {
            assert(self@.subrange(0, 0) =~= Seq::<RefData>::empty());
            reveal(Seq::filter);
            assert(v.deep_view() =~= self@.subrange(0, 0).filter(p));
        }
        while i < n
            invariant
                0 <= i <= n,
                n == self@.len(),
                n == self.refs@.len(),
                v.deep_view() == self@.subrange(0, i as int).filter(p),
                p == (|r: RefData| is_remote_head_name(r.name, id)),
            decreases n - i,
        {
            proof {
                assert(self@[i as int] == self.refs@[i as int].deep_view());
            }
            let ghost pre = self@.subrange(0, i as int);
            if is_remote_head(&self.refs[i].name, id) {
                let ghost old_dv = v.deep_view();
                let gr = self.refs[i].dup();
                v.push(gr);
                proof {
                    assert(v.deep_view() =~= old_dv.push(self@[i as int]));
                }
            }
            proof {
                assert(self@.subrange(0, i + 1) =~= pre.push(self@[i as int]));
                lemma_filter_push(pre, self@[i as int], p);
            }
            i = i + 1;
        }
        proof {
            assert(self@.subrange(0, n as int) =~= self@);
        }
        v
    }

    /// All remote-scope references of the issue rooted at `id`.
    pub fn remote_refs(&self, id: u64) -> (v: Vec<GitRef>)
        ensures
            v.deep_view() == self@.filter(|r: RefData| is_remote_ref_name(r.name, id)),
    {
        let ghost p = |r: RefData| is_remote_ref_name(r.name, id);
        let mut v: Vec<GitRef> = Vec::new();
        let mut i: usize = 0;
        let n = self.refs.len();
        proof {
            assert(self@.subrange(0, 0) =~= Seq::<RefData>::empty());
            reveal(Seq::filter);
            assert(v.deep_view() =~= self@.subrange(0, 0).filter(p));
        }
        while i < n
            invariant
                0 <= i <= n,
                n == self@.len(),
                n == self.refs@.len(),
                v.deep_view() == self@.subrange(0, i as int).filter(p),
                p == (|r: RefData| is_remote_ref_name(r.name, id)),
            decreases n - i,
        {
            proof {
                assert(self@[i as int] == self.refs@[i as int].deep_view());
            }
            let ghost pre = self@.subrange(0, i as int);
            if is_remote_ref(&self.refs[i].name, id) {
                let ghost old_dv = v.deep_view();
                let gr = self.refs[i].dup();
                v.push(gr);
                proof {
                    assert(v.deep_view() =~= old_dv.push(self@[i as int]));
                }
            }
            proof {
                assert(self@.subrange(0, i + 1) =~= pre.push(self@[i as int]));
                lemma_filter_push(pre, self@[i as int], p);
            }
            i = i + 1;
        }
        proof {
            assert(self@.subrange(0, n as int) =~= self@);
        }
        v
    }
}


/// Whether some boundary reference (local or remote) witnesses an issue
/// rooted at `id`.
pub open spec fn is_boundary_name(name: Seq<u8>, id: u64) -> bool {
    name == local_head_name(id) || is_remote_head_name(name, id)
}

pub open spec fn spec_has_boundary(refs: Seq<RefData>, id: u64) -> bool {
    exists|i: int| 0 <= i < refs.len() && #[trigger] is_boundary_name(refs[i].name, id)
}

impl RefStore {
    /// Whether any boundary reference, in any scope, names the issue
    /// rooted at `id`.
    pub fn has_boundary(&self, id: u64) -> (r: bool)
        ensures
            r == spec_has_boundary(self@, id),
    {
        let local = local_head_name_vec(id);
        let mut i: usize = 0;
        let n = self.refs.len();
        while i < n
            invariant
                0 <= i <= n,
                n == self@.len(),
                n == self.refs@.len(),
                local@ == local_head_name(id),
                forall|j: int| 0 <= j < i ==> !(#[trigger] is_boundary_name(self@[j].name, id)),
            decreases n - i,
        {
            proof {
                assert(self@[i as int] == self.refs@[i as int].deep_view());
            }
            if bytes_eq(&self.refs[i].name, &local) {
                proof {
                    assert(is_boundary_name(self@[i as int].name, id));
                }
                return true;
            }
            if is_remote_head(&self.refs[i].name, id) {
                proof {
                    assert(is_boundary_name(self@[i as int].name, id));
                }
                return true;
            }
            proof {
                assert(!is_boundary_name(self@[i as int].name, id));
            }
            i = i + 1;
        }
        false
    }
}


/// Re-pointing or creating an issue's local boundary reference makes
/// exactly that issue witnessed, and leaves every other issue's
/// witnessing as it was.
pub proof fn lemma_head_set_boundaries(refs: Seq<RefData>, id1: u64, target: u64)
    ensures
        forall|id: u64|
            #[trigger] spec_has_boundary(set_ref(refs, local_head_name(id1), target), id)
                == (spec_has_boundary(refs, id) || id == id1),
{
    let hname = local_head_name(id1);
    let new = set_ref(refs, hname, target);
    assert forall|id: u64|
        #[trigger] spec_has_boundary(new, id) == (spec_has_boundary(refs, id) || id == id1) by {
        if has_named(refs, hname) {
            let j = named_index(refs, hname);
            assert(0 <= j < refs.len() && refs[j].name == hname);
            assert(new == refs.update(j, RefData { name: hname, target }));
            if spec_has_boundary(new, id) {
                let i = choose|i: int|
                    0 <= i < new.len() && #[trigger] is_boundary_name(new[i].name, id);
                assert(is_boundary_name(refs[i].name, id));
            }
            if spec_has_boundary(refs, id) {
                let i = choose|i: int|
                    0 <= i < refs.len() && #[trigger] is_boundary_name(refs[i].name, id);
                assert(is_boundary_name(new[i].name, id));
            }
            if id == id1 {
                assert(is_boundary_name(refs[j].name, id1));
            }
        } else {
            assert(new == refs.push(RefData { name: hname, target }));
            if spec_has_boundary(new, id) && id != id1 {
                let i = choose|i: int|
                    0 <= i < new.len() && #[trigger] is_boundary_name(new[i].name, id);
                if i < refs.len() {
                    assert(is_boundary_name(refs[i].name, id));
                } else {
                    assert(new[i].name == hname);
                    if hname == local_head_name(id) {
                        lemma_head_name_injective(id1, id);
                    }
                    lemma_head_name_local_prefixed(id1);
                    lemma_local_prefixed_not_remote(hname, id);
                    assert(false);
                }
            }
            if spec_has_boundary(refs, id) {
                let i = choose|i: int|
                    0 <= i < refs.len() && #[trigger] is_boundary_name(refs[i].name, id);
                assert(is_boundary_name(new[i].name, id));
            }
            if id == id1 {
                assert(new[refs.len() as int].name == hname);
                assert(is_boundary_name(new[refs.len() as int].name, id1));
            }
        }
    }
}

/// Setting a tip reference never creates nor destroys a boundary: which
/// issues are witnessed is unchanged.
pub proof fn lemma_leaf_set_preserves_boundaries(
    refs: Seq<RefData>,
    id1: u64,
    t: u64,
    target: u64,
)
    ensures
        forall|id: u64|
            #[trigger] spec_has_boundary(
                set_ref(refs, local_leaf_prefix(id1) + hex_of(t as nat), target),
                id,
            ) == spec_has_boundary(refs, id),
{
    let lname = local_leaf_prefix(id1) + hex_of(t as nat);
    let new = set_ref(refs, lname, target);
    assert forall|id: u64|
        #[trigger] spec_has_boundary(new, id) == spec_has_boundary(refs, id) by {
        if has_named(refs, lname) {
            let j = named_index(refs, lname);
            assert(0 <= j < refs.len() && refs[j].name == lname);
            assert(new == refs.update(j, RefData { name: lname, target }));
            if spec_has_boundary(new, id) {
                let i = choose|i: int|
                    0 <= i < new.len() && #[trigger] is_boundary_name(new[i].name, id);
                assert(is_boundary_name(refs[i].name, id));
            }
            if spec_has_boundary(refs, id) {
                let i = choose|i: int|
                    0 <= i < refs.len() && #[trigger] is_boundary_name(refs[i].name, id);
                assert(is_boundary_name(new[i].name, id));
            }
        } else {
            assert(new == refs.push(RefData { name: lname, target }));
            if spec_has_boundary(new, id) {
                let i = choose|i: int|
                    0 <= i < new.len() && #[trigger] is_boundary_name(new[i].name, id);
                if i < refs.len() {
                    assert(is_boundary_name(refs[i].name, id));
                } else {
                    assert(new[i].name == lname);
                    lemma_leaf_name_not_any_head(id1, t, id);
                    lemma_leaf_name_local_prefixed(id1, t);
                    lemma_local_prefixed_not_remote(lname, id);
                    assert(false);
                }
            }
            if spec_has_boundary(refs, id) {
                let i = choose|i: int|
                    0 <= i < refs.len() && #[trigger] is_boundary_name(refs[i].name, id);
                assert(is_boundary_name(new[i].name, id));
            }
        }
    }
}


} // verus!
