//! The grammar of the configuration values, as spec functions over the
//! characters of a value and as executable recognisers over a character
//! vector. A recogniser starts at a position and answers where its match
//! ends, or that there is none; alternatives are tried in order, and the
//! first that matches wins.
use vstd::prelude::*;

verus! {

/// An ASCII decimal digit.
pub open spec fn is_digit(c: char) -> bool {
    '0' <= c && c <= '9'
}

/// The value of an ASCII decimal digit.
pub open spec fn digit_value(c: char) -> nat {
    (c as int - '0' as int) as nat
}

/// The value of a string of decimal digits, most significant first.
pub open spec fn decimal(ds: Seq<char>) -> nat
    decreases ds.len(),
{
    if ds.len() == 0 {
        0
    } else {
        decimal(ds.drop_last()) * 10 + digit_value(ds.last())
    }
}

/// The end of the run of digits that starts at `i`.
pub open spec fn digits_end(s: Seq<char>, i: int) -> int
    decreases s.len() - i,
{
    if 0 <= i < s.len() && is_digit(s[i]) {
        digits_end(s, i + 1)
    } else {
        i
    }
}

/// One or more digits at `i` whose value is at most `max`.
pub open spec fn number_end(s: Seq<char>, i: int, max: nat) -> Option<int> {
    let e = digits_end(s, i);
    if i < e && decimal(s.subrange(i, e)) <= max {
        Some(e)
    } else {
        None
    }
}

/// The largest value of a `u32`.
pub open spec fn u32_max() -> nat {
    0xffff_ffff
}

/// A part of an IPv4 address: a number of at most 255.
pub open spec fn octet_end(s: Seq<char>, i: int) -> Option<int> {
    number_end(s, i, 255)
}

/// The last part of a three-part address: a number of at most 65535.
pub open spec fn double_octet_end(s: Seq<char>, i: int) -> Option<int> {
    number_end(s, i, 65535)
}

/// A port: a number in the valid port range, at most 65535.
pub open spec fn port_end(s: Seq<char>, i: int) -> Option<int> {
    number_end(s, i, 65535)
}

/// A timeout: a number that fits in a `u32`.
pub open spec fn timeout_end(s: Seq<char>, i: int) -> Option<int> {
    number_end(s, i, u32_max())
}

/// The character `c` at `i`.
pub open spec fn char_end(s: Seq<char>, i: int, c: char) -> Option<int> {
    if 0 <= i < s.len() && s[i] == c {
        Some(i + 1)
    } else {
        None
    }
}

/// A dot followed by an octet.
pub open spec fn dot_octet_end(s: Seq<char>, i: int) -> Option<int> {
    match char_end(s, i, '.') {
        Some(j) => octet_end(s, j),
        None => None,
    }
}

/// A dot followed by a double octet.
pub open spec fn dot_double_octet_end(s: Seq<char>, i: int) -> Option<int> {
    match char_end(s, i, '.') {
        Some(j) => double_octet_end(s, j),
        None => None,
    }
}

/// Four octets separated by dots.
pub open spec fn ip_quad_end(s: Seq<char>, i: int) -> Option<int> {
    match octet_end(s, i) {
        Some(a) => match dot_octet_end(s, a) {
            Some(b) => match dot_octet_end(s, b) {
                Some(c) => dot_octet_end(s, c),
                None => None,
            },
            None => None,
        },
        None => None,
    }
}

/// Two octets and a double octet, separated by dots.
pub open spec fn ip_trip_end(s: Seq<char>, i: int) -> Option<int> {
    match octet_end(s, i) {
        Some(a) => match dot_octet_end(s, a) {
            Some(b) => dot_double_octet_end(s, b),
            None => None,
        },
        None => None,
    }
}

/// An IPv4 address: four parts if they match, else three.
pub open spec fn ip_end(s: Seq<char>, i: int) -> Option<int> {
    match ip_quad_end(s, i) {
        Some(e) => Some(e),
        None => ip_trip_end(s, i),
    }
}

/// The word `localhost`.
pub open spec fn localhost_word() -> Seq<char> {
    seq!['l', 'o', 'c', 'a', 'l', 'h', 'o', 's', 't']
}

/// The word `localhost` at `i`.
pub open spec fn localhost_end(s: Seq<char>, i: int) -> Option<int> {
    if 0 <= i && i + 9 <= s.len() && s.subrange(i, i + 9) == localhost_word() {
        Some(i + 9)
    } else {
        None
    }
}

/// A host: an IPv4 address if one matches, else `localhost`.
pub open spec fn hostname_end(s: Seq<char>, i: int) -> Option<int> {
    match ip_end(s, i) {
        Some(e) => Some(e),
        None => localhost_end(s, i),
    }
}

/// A host, a colon and a port.
pub open spec fn hostname_and_port_end(s: Seq<char>, i: int) -> Option<int> {
    match hostname_end(s, i) {
        Some(a) => match char_end(s, a, ':') {
            Some(b) => port_end(s, b),
            None => None,
        },
        None => None,
    }
}

/// After a first host and port ending at `i`: further `,host:port` entries,
/// as many as match. An entry that does not match ends the list before its
/// comma. (A match always ends after its start and within the input; the
/// test of that only makes the recursion's measure visible.)
pub open spec fn host_list_rest_end(s: Seq<char>, i: int) -> int
    decreases s.len() - i,
{
    match char_end(s, i, ',') {
        Some(j) => match hostname_and_port_end(s, j) {
            Some(e) => if i < e <= s.len() {
                host_list_rest_end(s, e)
            } else {
                i
            },
            None => i,
        },
        None => i,
    }
}

/// Zero or more `host:port` entries separated by commas; this always matches,
/// possibly nothing.
pub open spec fn host_list_end(s: Seq<char>, i: int) -> int {
    match hostname_and_port_end(s, i) {
        Some(e) => host_list_rest_end(s, e),
        None => i,
    }
}

/// A host, then a colon and a port where they follow.
pub open spec fn host_entry_end(s: Seq<char>, i: int) -> Option<int> {
    match hostname_end(s, i) {
        Some(a) => match char_end(s, a, ':') {
            Some(b) => match port_end(s, b) {
                Some(e) => Some(e),
                None => Some(a),
            },
            None => Some(a),
        },
        None => None,
    }
}

/// After a first host entry ending at `i`: further `,entry` parts, as many
/// as match (see [`host_list_rest_end`] for the test on the match's end).
pub open spec fn host_entries_rest_end(s: Seq<char>, i: int) -> int
    decreases s.len() - i,
{
    match char_end(s, i, ',') {
        Some(j) => match host_entry_end(s, j) {
            Some(e) => if i < e <= s.len() {
                host_entries_rest_end(s, e)
            } else {
                i
            },
            None => i,
        },
        None => i,
    }
}

/// One or more host entries (hosts with an optional port) separated by
/// commas.
pub open spec fn host_entries_end(s: Seq<char>, i: int) -> Option<int> {
    match host_entry_end(s, i) {
        Some(e) => Some(host_entries_rest_end(s, e)),
        None => None,
    }
}

/// A character that may stand in a topic name.
pub open spec fn topic_char(c: char) -> bool {
    ||| c == '_'
    ||| is_digit(c)
    ||| ('a' <= c && c <= 'z')
    ||| ('A' <= c && c <= 'Z')
}

/// A topic name: one or more topic characters.
pub open spec fn is_topic(w: Seq<char>) -> bool {
    &&& w.len() > 0
    &&& forall|k: int| 0 <= k < w.len() ==> #[trigger] topic_char(w[k])
}

/// The words of `ws` joined by commas.
pub open spec fn join_commas(ws: Seq<Seq<char>>) -> Seq<char>
    decreases ws.len(),
{
    if ws.len() == 0 {
        Seq::empty()
    } else if ws.len() == 1 {
        ws[0]
    } else {
        join_commas(ws.drop_last()) + seq![','] + ws.last()
    }
}

/// Two commas side by side at `k`.
pub open spec fn double_comma_at(s: Seq<char>, k: int) -> bool {
    s[k] == ',' && s[k + 1] == ','
}

/// `s` is a non-empty list of topic names separated by single commas: only
/// topic characters and commas, no comma first, last or next to another.
pub open spec fn is_topic_list(s: Seq<char>) -> bool {
    &&& s.len() > 0
    &&& forall|k: int| 0 <= k < s.len() ==> topic_char(#[trigger] s[k]) || s[k] == ','
    &&& s[0] != ','
    &&& s.last() != ','
    &&& forall|k: int| 0 <= k < s.len() - 1 ==> !#[trigger] double_comma_at(s, k)
}

/// The view of an optional position.
pub open spec fn pos(r: Option<usize>) -> Option<int> {
    match r {
        Some(e) => Some(e as int),
        None => None,
    }
}

// ---------------------------------------------------------------------------
// Facts about the grammar.

proof fn lemma_digits_end_bounds(s: Seq<char>, i: int)
    requires
        0 <= i <= s.len(),
    ensures
        i <= digits_end(s, i) <= s.len(),
        forall|k: int| i <= k < digits_end(s, i) ==> is_digit(#[trigger] s[k]),
        digits_end(s, i) < s.len() ==> !is_digit(s[digits_end(s, i)]),
    decreases s.len() - i,
{
    if i < s.len() && is_digit(s[i]) {
        lemma_digits_end_bounds(s, i + 1);
    }
}

// ---------------------------------------------------------------------------
// Lists of topic names.

/// A comma-joined list of topic names is a well-formed topic list.
pub proof fn lemma_join_is_topic_list(ws: Seq<Seq<char>>)
    requires
        ws.len() > 0,
        forall|k: int| 0 <= k < ws.len() ==> is_topic(#[trigger] ws[k]),
    ensures
        is_topic_list(join_commas(ws)),
    decreases ws.len(),
{
    let s = join_commas(ws);
    if ws.len() == 1 {
        let w = ws[0];
        assert(s == w);
        assert forall|k: int| 0 <= k < s.len() implies topic_char(#[trigger] s[k]) || s[k] == ',' by {
            assert(topic_char(w[k]));
        }
        assert(topic_char(w[0]));
        assert(topic_char(w[w.len() - 1]));
        assert forall|k: int| 0 <= k < s.len() - 1 implies !#[trigger] double_comma_at(s, k) by {
            assert(topic_char(w[k]));
        }
    } else {
        let init = ws.drop_last();
        let last = ws.last();
        assert forall|k: int| 0 <= k < init.len() implies is_topic(#[trigger] init[k]) by {
            assert(init[k] == ws[k]);
        }
        lemma_join_is_topic_list(init);
        let j = join_commas(init);
        assert(is_topic(ws[ws.len() - 1]));
        assert(s == j + seq![','] + last);
        let n = j.len();
        assert forall|k: int| 0 <= k < s.len() implies topic_char(#[trigger] s[k]) || s[k] == ',' by {
            if k < n {
                assert(s[k] == j[k]);
                assert(topic_char(j[k]) || j[k] == ',');
            } else if k > n {
                assert(s[k] == last[k - n - 1]);
                assert(topic_char(last[k - n - 1]));
            }
        }
        assert(s[0] == j[0]);
        assert(s.last() == last[last.len() - 1]);
        assert(topic_char(last[last.len() - 1]));
        assert forall|k: int| 0 <= k < s.len() - 1 implies !#[trigger] double_comma_at(s, k) by {
            if k < n - 1 {
                assert(s[k] == j[k]);
                assert(s[k + 1] == j[k + 1]);
                assert(!double_comma_at(j, k));
            } else if k == n - 1 {
                assert(s[k] == j.last());
            } else if k == n {
                assert(s[k + 1] == last[0]);
                assert(topic_char(last[0]));
            } else {
                assert(s[k] == last[k - n - 1]);
                assert(topic_char(last[k - n - 1]));
            }
        }
    }
}

proof fn lemma_join_split(ws: Seq<Seq<char>>)
    requires
        ws.len() > 1,
    ensures
        join_commas(ws) == join_commas(ws.drop_last()) + seq![','] + ws.last(),
        join_commas(ws)[join_commas(ws.drop_last()).len() as int] == ',',
        join_commas(ws).len() == join_commas(ws.drop_last()).len() + 1 + ws.last().len(),
{
}

proof fn lemma_topic_has_no_comma(w: Seq<char>, k: int)
    requires
        is_topic(w),
        0 <= k < w.len(),
    ensures
        w[k] != ',',
{
    assert(topic_char(w[k]));
}

/// Different lists of topic names join to different strings.
pub proof fn lemma_join_injective(a: Seq<Seq<char>>, b: Seq<Seq<char>>)
    requires
        a.len() > 0,
        b.len() > 0,
        forall|k: int| 0 <= k < a.len() ==> is_topic(#[trigger] a[k]),
        forall|k: int| 0 <= k < b.len() ==> is_topic(#[trigger] b[k]),
        join_commas(a) == join_commas(b),
    ensures
        a == b,
    decreases a.len() + b.len(),
{
    let s = join_commas(a);
    if a.len() == 1 && b.len() == 1 {
        assert(a =~= b);
    } else if a.len() == 1 {
        lemma_join_split(b);
        let p = join_commas(b.drop_last()).len() as int;
        assert(s == a[0]);
        lemma_topic_has_no_comma(a[0], p);
    } else if b.len() == 1 {
        lemma_join_split(a);
        let p = join_commas(a.drop_last()).len() as int;
        assert(s == b[0]);
        lemma_topic_has_no_comma(b[0], p);
    } else {
        lemma_join_split(a);
        lemma_join_split(b);
        let ja = join_commas(a.drop_last());
        let jb = join_commas(b.drop_last());
        let la = a.last();
        let lb = b.last();
        assert(is_topic(a[a.len() - 1]));
        assert(is_topic(b[b.len() - 1]));
        if la.len() < lb.len() {
            let p = ja.len() as int;
            assert(s[p] == ',');
            assert(s[p] == lb[p - jb.len() - 1]);
            lemma_topic_has_no_comma(lb, p - jb.len() - 1);
        } else if lb.len() < la.len() {
            let p = jb.len() as int;
            assert(s[p] == ',');
            assert(s[p] == la[p - ja.len() - 1]);
            lemma_topic_has_no_comma(la, p - ja.len() - 1);
        } else {
            assert(ja =~= s.subrange(0, ja.len() as int));
            assert(jb =~= s.subrange(0, jb.len() as int));
            assert(la =~= s.subrange(ja.len() as int + 1, s.len() as int));
            assert(lb =~= s.subrange(jb.len() as int + 1, s.len() as int));
            let a2 = a.drop_last();
            let b2 = b.drop_last();
            assert forall|k: int| 0 <= k < a2.len() implies is_topic(#[trigger] a2[k]) by {
                assert(a2[k] == a[k]);
            }
            assert forall|k: int| 0 <= k < b2.len() implies is_topic(#[trigger] b2[k]) by {
                assert(b2[k] == b[k]);
            }
            lemma_join_injective(a2, b2);
            assert(a =~= a2.push(la));
            assert(b =~= b2.push(lb));
        }
    }
}

// ---------------------------------------------------------------------------
// Executable recognisers over the characters of a value.

fn is_digit_char(c: char) -> (b: bool)
    ensures
        b == is_digit(c),
{
    '0' <= c && c <= '9'
}

/// Whether `c` may stand in a topic name.
pub fn is_topic_char(c: char) -> (b: bool)
    ensures
        b == topic_char(c),
{
    c == '_' || ('0' <= c && c <= '9') || ('a' <= c && c <= 'z') || ('A' <= c && c <= 'Z')
}

/// One or more digits at `i` whose value is at most `max`.
pub fn number_at(cs: &Vec<char>, i: usize, max: u32) -> (r: Option<usize>)
    requires
        i <= cs.len(),
    ensures
        r matches Some(e) ==> i < e <= cs.len(),
        pos(r) == number_end(cs@, i as int, max as nat),
{
    let ghost s = cs@;
    let cap: u64 = max as u64 + 1;
    let mut j: usize = i;
    // the value of the digits so far, or `max + 1` once it is larger than `max`
    let mut v: u64 = 0;
    while j < cs.len() && is_digit_char(cs[j])
        invariant
            s == cs@,
            i <= j <= cs.len(),
            cap == max + 1,
            digits_end(s, i as int) == digits_end(s, j as int),
            v == if decimal(s.subrange(i as int, j as int)) < cap {
                decimal(s.subrange(i as int, j as int))
            } else {
                cap as nat
            },
        decreases cs.len() - j,
    {
        let d: u64 = (cs[j] as u32 - '0' as u32) as u64;
        assert(s.subrange(i as int, j + 1).drop_last() =~= s.subrange(i as int, j as int));
        assert(s.subrange(i as int, j + 1).last() == s[j as int]);
        let w: u64 = v * 10 + d;
        if w < cap {
            v = w;
        } else {
            v = cap;
        }
        j = j + 1;
    }
    proof {
        lemma_digits_end_bounds(s, i as int);
    }
    if i < j && v <= max as u64 {
        Some(j)
    } else {
        None
    }
}

/// The character `c` at `i`.
pub fn char_at(cs: &Vec<char>, i: usize, c: char) -> (r: Option<usize>)
    requires
        i <= cs.len(),
    ensures
        r matches Some(e) ==> i < e <= cs.len(),
        pos(r) == char_end(cs@, i as int, c),
{
    if i < cs.len() && cs[i] == c {
        Some(i + 1)
    } else {
        None
    }
}

/// A dot followed by an octet.
fn dot_octet_at(cs: &Vec<char>, i: usize) -> (r: Option<usize>)
    requires
        i <= cs.len(),
    ensures
        r matches Some(e) ==> i < e <= cs.len(),
        pos(r) == dot_octet_end(cs@, i as int),
{
    match char_at(cs, i, '.') {
        Some(j) => number_at(cs, j, 255),
        None => None,
    }
}

/// Four octets separated by dots.
pub fn ip_quad_at(cs: &Vec<char>, i: usize) -> (r: Option<usize>)
    requires
        i <= cs.len(),
    ensures
        r matches Some(e) ==> i < e <= cs.len(),
        pos(r) == ip_quad_end(cs@, i as int),
{
    let a = number_at(cs, i, 255)?;
    let b = dot_octet_at(cs, a)?;
    let c = dot_octet_at(cs, b)?;
    dot_octet_at(cs, c)
}

/// Two octets and a double octet, separated by dots.
pub fn ip_trip_at(cs: &Vec<char>, i: usize) -> (r: Option<usize>)
    requires
        i <= cs.len(),
    ensures
        r matches Some(e) ==> i < e <= cs.len(),
        pos(r) == ip_trip_end(cs@, i as int),
{
    let a = number_at(cs, i, 255)?;
    let b = dot_octet_at(cs, a)?;
    match char_at(cs, b, '.') {
        Some(j) => number_at(cs, j, 65535),
        None => None,
    }
}

/// An IPv4 address: four parts if they match, else three.
pub fn ip_at(cs: &Vec<char>, i: usize) -> (r: Option<usize>)
    requires
        i <= cs.len(),
    ensures
        r matches Some(e) ==> i < e <= cs.len(),
        pos(r) == ip_end(cs@, i as int),
{
    match ip_quad_at(cs, i) {
        Some(e) => Some(e),
        None => ip_trip_at(cs, i),
    }
}

/// The word `localhost` at `i`.
pub fn localhost_at(cs: &Vec<char>, i: usize) -> (r: Option<usize>)
    requires
        i <= cs.len(),
    ensures
        r matches Some(e) ==> i < e <= cs.len(),
        pos(r) == localhost_end(cs@, i as int),
{
    if cs.len() - i >= 9 && cs[i] == 'l' && cs[i + 1] == 'o' && cs[i + 2] == 'c' && cs[i + 3]
        == 'a' && cs[i + 4] == 'l' && cs[i + 5] == 'h' && cs[i + 6] == 'o' && cs[i + 7] == 's'
        && cs[i + 8] == 't' {
        assert(cs@.subrange(i as int, i + 9) =~= localhost_word());
        Some(i + 9)
    } else {
        proof {
            if i + 9 <= cs.len() && cs@.subrange(i as int, i + 9) == localhost_word() {
                assert(cs@.subrange(i as int, i + 9)[0] == cs@[i as int]);
                assert(cs@.subrange(i as int, i + 9)[1] == cs@[i + 1]);
                assert(cs@.subrange(i as int, i + 9)[2] == cs@[i + 2]);
                assert(cs@.subrange(i as int, i + 9)[3] == cs@[i + 3]);
                assert(cs@.subrange(i as int, i + 9)[4] == cs@[i + 4]);
                assert(cs@.subrange(i as int, i + 9)[5] == cs@[i + 5]);
                assert(cs@.subrange(i as int, i + 9)[6] == cs@[i + 6]);
                assert(cs@.subrange(i as int, i + 9)[7] == cs@[i + 7]);
                assert(cs@.subrange(i as int, i + 9)[8] == cs@[i + 8]);
            }
        }
        None
    }
}

/// A host: an IPv4 address if one matches, else `localhost`.
pub fn hostname_at(cs: &Vec<char>, i: usize) -> (r: Option<usize>)
    requires
        i <= cs.len(),
    ensures
        r matches Some(e) ==> i < e <= cs.len(),
        pos(r) == hostname_end(cs@, i as int),
{
    match ip_at(cs, i) {
        Some(e) => Some(e),
        None => localhost_at(cs, i),
    }
}

/// A host, a colon and a port.
pub fn hostname_and_port_at(cs: &Vec<char>, i: usize) -> (r: Option<usize>)
    requires
        i <= cs.len(),
    ensures
        r matches Some(e) ==> i < e <= cs.len(),
        pos(r) == hostname_and_port_end(cs@, i as int),
{
    let a = hostname_at(cs, i)?;
    let b = char_at(cs, a, ':')?;
    number_at(cs, b, 65535)
}

/// Zero or more `host:port` entries separated by commas.
pub fn host_list_at(cs: &Vec<char>, i: usize) -> (e: usize)
    requires
        i <= cs.len(),
    ensures
        e == host_list_end(cs@, i as int),
        i <= e <= cs.len(),
{
    let mut e = match hostname_and_port_at(cs, i) {
        Some(e) => e,
        None => return i,
    };
    loop
        invariant
            i < e <= cs.len(),
            host_list_end(cs@, i as int) == host_list_rest_end(cs@, e as int),
        decreases cs.len() - e,
    {
        let j = match char_at(cs, e, ',') {
            Some(j) => j,
            None => return e,
        };
        match hostname_and_port_at(cs, j) {
            Some(next) => {
                e = next;
            },
            None => return e,
        }
    }
}

/// A host, then a colon and a port where they follow.
pub fn host_entry_at(cs: &Vec<char>, i: usize) -> (r: Option<usize>)
    requires
        i <= cs.len(),
    ensures
        pos(r) == host_entry_end(cs@, i as int),
        r matches Some(e) ==> i < e <= cs.len(),
{
    let a = hostname_at(cs, i)?;
    match char_at(cs, a, ':') {
        Some(b) => match number_at(cs, b, 65535) {
            Some(e) => Some(e),
            None => Some(a),
        },
        None => Some(a),
    }
}

/// One or more host entries separated by commas.
pub fn host_entries_at(cs: &Vec<char>, i: usize) -> (r: Option<usize>)
    requires
        i <= cs.len(),
    ensures
        pos(r) == host_entries_end(cs@, i as int),
        r matches Some(e) ==> i < e <= cs.len(),
{
    let mut e = host_entry_at(cs, i)?;
    loop
        invariant
            i < e <= cs.len(),
            host_entries_end(cs@, i as int) == Some(host_entries_rest_end(cs@, e as int)),
        decreases cs.len() - e,
    {
        let j = match char_at(cs, e, ',') {
            Some(j) => j,
            None => return Some(e),
        };
        match host_entry_at(cs, j) {
            Some(next) => {
                e = next;
            },
            None => return Some(e),
        }
    }
}

} // verus!
