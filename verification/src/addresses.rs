//! Decimal numerals, and the laws of the address grammar stated over them:
//! every dotted-decimal address with parts in range, and every such address
//! with a port in range, is read whole.
use vstd::prelude::*;
use crate::syntax::{
    char_end, decimal, digit_value, digits_end, host_entries_end, host_entries_rest_end,
    host_entry_end, host_list_end, host_list_rest_end, hostname_and_port_end, hostname_end,
    ip_end, ip_quad_end, ip_trip_end, is_digit, localhost_end, localhost_word, number_end,
    octet_end, port_end, timeout_end, u32_max,
};

verus! {

/// The numeral of a digit value below ten.
pub open spec fn digit_char(d: nat) -> char {
    if d == 0 {
        '0'
    } else if d == 1 {
        '1'
    } else if d == 2 {
        '2'
    } else if d == 3 {
        '3'
    } else if d == 4 {
        '4'
    } else if d == 5 {
        '5'
    } else if d == 6 {
        '6'
    } else if d == 7 {
        '7'
    } else if d == 8 {
        '8'
    } else {
        '9'
    }
}

/// The decimal numeral of `n`, without leading zeros.
pub open spec fn numeral(n: nat) -> Seq<char>
    decreases n,
{
    if n < 10 {
        seq![digit_char(n)]
    } else {
        numeral(n / 10).push(digit_char(n % 10))
    }
}

proof fn lemma_digit_char(d: nat)
    requires
        d < 10,
    ensures
        is_digit(digit_char(d)),
        digit_value(digit_char(d)) == d,
{
}

/// A numeral is a non-empty run of digits whose value is the number.
pub proof fn lemma_numeral(n: nat)
    ensures
        numeral(n).len() >= 1,
        forall|k: int| 0 <= k < numeral(n).len() ==> is_digit(#[trigger] numeral(n)[k]),
        decimal(numeral(n)) == n,
    decreases n,
{
    if n < 10 {
        lemma_digit_char(n);
        let s = numeral(n);
        assert(s.drop_last() =~= Seq::<char>::empty());
        assert(decimal(s.drop_last()) == 0);
        assert(s.last() == digit_char(n));
        assert(decimal(s) == decimal(s.drop_last()) * 10 + digit_value(s.last()));
    } else {
        lemma_digit_char(n % 10);
        lemma_numeral(n / 10);
        let s = numeral(n);
        assert(s.drop_last() =~= numeral(n / 10));
        assert(s.last() == digit_char((n % 10) as nat));
        assert(decimal(s) == decimal(s.drop_last()) * 10 + digit_value(s.last()));
        assert(n == (n / 10) * 10 + n % 10);
    }
}

proof fn lemma_digits_end_at(s: Seq<char>, i: int, e: int)
    requires
        0 <= i <= e <= s.len(),
        forall|k: int| i <= k < e ==> is_digit(#[trigger] s[k]),
        e == s.len() || !is_digit(s[e]),
    ensures
        digits_end(s, i) == e,
    decreases e - i,
{
    if i < e {
        lemma_digits_end_at(s, i + 1, e);
    }
}

/// A numeral at `i` whose value is at most `max`, and that no further digit
/// follows, is read as a number ending where the numeral ends.
pub proof fn lemma_numeral_read(s: Seq<char>, i: int, v: nat, max: nat)
    requires
        0 <= i,
        v <= max,
        i + numeral(v).len() <= s.len(),
        s.subrange(i, i + numeral(v).len()) == numeral(v),
        i + numeral(v).len() == s.len() || !is_digit(s[i + numeral(v).len()]),
    ensures
        number_end(s, i, max) == Some(i + numeral(v).len()),
{
    lemma_numeral(v);
    let e = i + numeral(v).len();
    assert forall|k: int| i <= k < e implies is_digit(#[trigger] s[k]) by {
        assert(s[k] == s.subrange(i, e)[k - i]);
    }
    lemma_digits_end_at(s, i, e);
}

/// The dotted-decimal text of the four-part address `a.b.c.d`.
pub open spec fn dotted_quad(a: nat, b: nat, c: nat, d: nat) -> Seq<char> {
    numeral(a) + seq!['.'] + numeral(b) + seq!['.'] + numeral(c) + seq!['.'] + numeral(d)
}

/// The dotted-decimal text of the three-part address `a.b.c`.
pub open spec fn dotted_trip(a: nat, b: nat, c: nat) -> Seq<char> {
    numeral(a) + seq!['.'] + numeral(b) + seq!['.'] + numeral(c)
}

proof fn lemma_quad_read(s: Seq<char>, i: int, a: nat, b: nat, c: nat, d: nat)
    requires
        a <= 255,
        b <= 255,
        c <= 255,
        d <= 255,
        0 <= i,
        i + dotted_quad(a, b, c, d).len() <= s.len(),
        s.subrange(i, i + dotted_quad(a, b, c, d).len()) == dotted_quad(a, b, c, d),
        i + dotted_quad(a, b, c, d).len() == s.len() || !is_digit(
            s[i + dotted_quad(a, b, c, d).len()],
        ),
    ensures
        ip_quad_end(s, i) == Some(i + dotted_quad(a, b, c, d).len()),
        ip_end(s, i) == Some(i + dotted_quad(a, b, c, d).len()),
        hostname_end(s, i) == Some(i + dotted_quad(a, b, c, d).len()),
{
    let t = dotted_quad(a, b, c, d);
    let (na, nb, nc, nd) = (numeral(a), numeral(b), numeral(c), numeral(d));
    let (la, lb, lc, ld) = (na.len() as int, nb.len() as int, nc.len() as int, nd.len() as int);
    lemma_numeral(a);
    lemma_numeral(b);
    lemma_numeral(c);
    lemma_numeral(d);
    let e = i + t.len();
    assert(t.len() == la + lb + lc + ld + 3);
    assert forall|k: int| 0 <= k < t.len() implies s[i + k] == #[trigger] t[k] by {
        assert(s[i + k] == s.subrange(i, e)[k]);
    }
    let p1 = i + la;
    let p2 = p1 + 1 + lb;
    let p3 = p2 + 1 + lc;
    assert(s.subrange(i, p1) =~= na) by {
        assert forall|k: int| 0 <= k < la implies s.subrange(i, p1)[k] == na[k] by {
            assert(t[k] == na[k]);
            assert(s[i + k] == t[k]);
        }
    }
    assert(s[p1] == '.') by {
        assert(s[i + la] == t[la]);
    }
    assert(s.subrange(p1 + 1, p2) =~= nb) by {
        assert forall|k: int| 0 <= k < lb implies s.subrange(p1 + 1, p2)[k] == nb[k] by {
            assert(t[la + 1 + k] == nb[k]);
            assert(s[i + la + 1 + k] == t[la + 1 + k]);
        }
    }
    assert(s[p2] == '.') by {
        assert(s[i + la + 1 + lb] == t[la + 1 + lb]);
    }
    assert(s.subrange(p2 + 1, p3) =~= nc) by {
        assert forall|k: int| 0 <= k < lc implies s.subrange(p2 + 1, p3)[k] == nc[k] by {
            assert(t[la + lb + 2 + k] == nc[k]);
            assert(s[i + la + lb + 2 + k] == t[la + lb + 2 + k]);
        }
    }
    assert(s[p3] == '.') by {
        assert(s[i + la + lb + 2 + lc] == t[la + lb + 2 + lc]);
    }
    assert(s.subrange(p3 + 1, e) =~= nd) by {
        assert forall|k: int| 0 <= k < ld implies s.subrange(p3 + 1, e)[k] == nd[k] by {
            assert(t[la + lb + lc + 3 + k] == nd[k]);
            assert(s[i + la + lb + lc + 3 + k] == t[la + lb + lc + 3 + k]);
        }
    }
    lemma_numeral_read(s, i, a, 255);
    lemma_numeral_read(s, p1 + 1, b, 255);
    lemma_numeral_read(s, p2 + 1, c, 255);
    lemma_numeral_read(s, p3 + 1, d, 255);
    assert(octet_end(s, i) == Some(p1));
    assert(char_end(s, p1, '.') == Some(p1 + 1));
    assert(char_end(s, p2, '.') == Some(p2 + 1));
    assert(char_end(s, p3, '.') == Some(p3 + 1));
}

/// Every four-part address with parts of at most 255 is read whole: as an
/// address, as a host, and, followed by a colon and a port of at most
/// 65535, as a host and port and as a one-entry list of them.
pub proof fn lemma_dotted_quads_are_read_whole(a: nat, b: nat, c: nat, d: nat, port: nat)
    requires
        a <= 255,
        b <= 255,
        c <= 255,
        d <= 255,
        port <= 65535,
    ensures
        ip_quad_end(dotted_quad(a, b, c, d), 0) == Some(dotted_quad(a, b, c, d).len() as int),
        ip_end(dotted_quad(a, b, c, d), 0) == Some(dotted_quad(a, b, c, d).len() as int),
        hostname_end(dotted_quad(a, b, c, d), 0) == Some(dotted_quad(a, b, c, d).len() as int),
        ({
            let s = dotted_quad(a, b, c, d) + seq![':'] + numeral(port);
            &&& hostname_and_port_end(s, 0) == Some(s.len() as int)
            &&& host_list_end(s, 0) == s.len()
        }),
{
    let t = dotted_quad(a, b, c, d);
    assert(t.subrange(0, t.len() as int) =~= t);
    lemma_quad_read(t, 0, a, b, c, d);
    let s = t + seq![':'] + numeral(port);
    lemma_numeral(port);
    assert(s.subrange(0, t.len() as int) =~= t);
    assert(s[t.len() as int] == ':');
    lemma_quad_read(s, 0, a, b, c, d);
    let q: int = t.len() as int + 1;
    assert(s.subrange(q, q + numeral(port).len()) =~= numeral(port));
    lemma_numeral_read(s, q, port, 65535);
    assert(char_end(s, t.len() as int, ':') == Some(q));
    assert(port_end(s, q) == Some(s.len() as int));
    assert(hostname_and_port_end(s, 0) == Some(s.len() as int));
    assert(char_end(s, s.len() as int, ',') is None);
    assert(host_list_rest_end(s, s.len() as int) == s.len());
}

/// `s` from `i` on is `x` followed by `y`: then each part stands where it
/// should.
proof fn lemma_split_at(s: Seq<char>, i: int, x: Seq<char>, y: Seq<char>)
    requires
        0 <= i <= s.len(),
        s.subrange(i, s.len() as int) == x + y,
    ensures
        i + x.len() <= s.len(),
        s.subrange(i, i + x.len()) == x,
        s.subrange(i + x.len(), s.len() as int) == y,
{
    let r = s.subrange(i, s.len() as int);
    assert(r.len() == x.len() + y.len());
    assert forall|k: int| 0 <= k < x.len() implies s.subrange(i, i + x.len())[k] == x[k] by {
        assert(s[i + k] == r[k]);
        assert(r[k] == (x + y)[k]);
    }
    assert forall|k: int| 0 <= k < y.len() implies s.subrange(i + x.len(), s.len() as int)[k]
        == y[k] by {
        assert(s[i + x.len() + k] == r[x.len() + k]);
        assert(r[x.len() + k] == (x + y)[x.len() + k]);
    }
    assert(s.subrange(i, i + x.len()) =~= x);
    assert(s.subrange(i + x.len(), s.len() as int) =~= y);
}

/// A host in a list: `localhost` where there are no parts, else the
/// four-part address with these parts.
pub open spec fn host_text(host: Option<(nat, nat, nat, nat)>) -> Seq<char> {
    match host {
        None => localhost_word(),
        Some((a, b, c, d)) => dotted_quad(a, b, c, d),
    }
}

/// A host with an optional port.
pub open spec fn entry_text(entry: (Option<(nat, nat, nat, nat)>, Option<nat>)) -> Seq<char> {
    host_text(entry.0) + match entry.1 {
        Some(p) => seq![':'] + numeral(p),
        None => Seq::empty(),
    }
}

/// The parts of an entry are in range: address parts of at most 255, a
/// port of at most 65535.
pub open spec fn entry_in_range(entry: (Option<(nat, nat, nat, nat)>, Option<nat>)) -> bool {
    &&& entry.0 matches Some((a, b, c, d)) ==> a <= 255 && b <= 255 && c <= 255 && d <= 255
    &&& entry.1 matches Some(p) ==> p <= 65535
}

/// Entries joined by commas.
pub open spec fn entries_text(es: Seq<(Option<(nat, nat, nat, nat)>, Option<nat>)>) -> Seq<char>
    decreases es.len(),
{
    if es.len() <= 1 {
        if es.len() == 1 {
            entry_text(es[0])
        } else {
            Seq::empty()
        }
    } else {
        entry_text(es[0]) + seq![','] + entries_text(es.drop_first())
    }
}

proof fn lemma_entry_read(
    s: Seq<char>,
    i: int,
    entry: (Option<(nat, nat, nat, nat)>, Option<nat>),
)
    requires
        entry_in_range(entry),
        0 <= i,
        i + entry_text(entry).len() <= s.len(),
        s.subrange(i, i + entry_text(entry).len()) == entry_text(entry),
        i + entry_text(entry).len() == s.len() || s[i + entry_text(entry).len()] == ',',
    ensures
        host_entry_end(s, i) == Some(i + entry_text(entry).len()),
        entry.1 is Some ==> hostname_and_port_end(s, i) == Some(i + entry_text(entry).len()),
{
    let h = host_text(entry.0);
    let e = i + entry_text(entry).len();
    let hl = h.len() as int;
    let tail = match entry.1 {
        Some(p) => seq![':'] + numeral(p),
        None => Seq::<char>::empty(),
    };
    assert(entry_text(entry) == h + tail);
    assert(s.subrange(i, i + hl) =~= h) by {
        assert forall|k: int| 0 <= k < hl implies s.subrange(i, i + hl)[k] == h[k] by {
            assert(s[i + k] == s.subrange(i, e)[k]);
            assert((h + tail)[k] == h[k]);
        }
    }
    let after = i + hl;
    // what follows the host is not a digit
    assert(after == s.len() || !is_digit(s[after])) by {
        if after < s.len() {
            if after < e {
                assert(s[after] == s.subrange(i, e)[hl]);
                assert((h + tail)[hl] == tail[0]);
                if let Some(p) = entry.1 {
                    assert(tail[0] == ':');
                }
            }
        }
    }
    match entry.0 {
        Some((a, b, c, d)) => {
            lemma_quad_read(s, i, a, b, c, d);
        },
        None => {
            assert(s[i] == h[0]);
            assert(!is_digit(s[i]));
            assert(digits_end(s, i) == i);
            assert(octet_end(s, i) is None);
            assert(ip_quad_end(s, i) is None);
            assert(ip_trip_end(s, i) is None);
            assert(localhost_end(s, i) == Some(i + 9));
        },
    }
    assert(hostname_end(s, i) == Some(after));
    match entry.1 {
        Some(p) => {
            lemma_numeral(p);
            let np = numeral(p);
            assert(s[after] == ':') by {
                assert(s[after] == s.subrange(i, e)[hl]);
                assert((h + tail)[hl] == tail[0]);
            }
            assert(s.subrange(after + 1, e) =~= np) by {
                assert forall|k: int| 0 <= k < np.len() implies s.subrange(after + 1, e)[k]
                    == np[k] by {
                    assert(s[after + 1 + k] == s.subrange(i, e)[hl + 1 + k]);
                    assert((h + tail)[hl + 1 + k] == tail[1 + k]);
                }
            }
            assert(e == after + 1 + np.len());
            lemma_numeral_read(s, after + 1, p, 65535);
            assert(char_end(s, after, ':') == Some(after + 1));
        },
        None => {
            assert(e == after);
            assert(char_end(s, after, ':') is None);
        },
    }
}

proof fn lemma_entries_rest(s: Seq<char>, i: int, es: Seq<(Option<(nat, nat, nat, nat)>, Option<nat>)>)
    requires
        es.len() > 0,
        forall|k: int| 0 <= k < es.len() ==> entry_in_range(#[trigger] es[k]),
        0 <= i <= s.len(),
        s.subrange(i, s.len() as int) == seq![','] + entries_text(es),
    ensures
        host_entries_rest_end(s, i) == s.len(),
        (forall|k: int| 0 <= k < es.len() ==> (#[trigger] es[k]).1 is Some) ==> host_list_rest_end(
            s,
            i,
        ) == s.len(),
    decreases es.len(),
{
    let first = es[0];
    assert(entry_in_range(es[0]));
    let et = entry_text(first);
    lemma_split_at(s, i, seq![','], entries_text(es));
    assert(s[i] == ',') by {
        assert(s.subrange(i, i + 1)[0] == s[i]);
    }
    let j = i + 1;
    let e = j + et.len();
    if es.len() == 1 {
        assert(entries_text(es) == et);
        assert(s.subrange(j, s.len() as int) == et);
        assert(e == s.len());
        assert(s.subrange(j, e) == et);
        lemma_entry_read(s, j, first);
        assert(char_end(s, e, ',') is None);
        assert(host_entries_rest_end(s, e) == e);
        assert(host_list_rest_end(s, e) == e);
    } else {
        let rest = es.drop_first();
        assert(entries_text(es) == et + (seq![','] + entries_text(rest)));
        lemma_split_at(s, j, et, seq![','] + entries_text(rest));
        assert(s[e] == ',') by {
            assert(s.subrange(e, s.len() as int)[0] == s[e]);
        }
        lemma_entry_read(s, j, first);
        assert forall|k: int| 0 <= k < rest.len() implies entry_in_range(#[trigger] rest[k]) by {
            assert(rest[k] == es[k + 1]);
        }
        if forall|k: int| 0 <= k < es.len() ==> (#[trigger] es[k]).1 is Some {
            assert forall|k: int| 0 <= k < rest.len() implies (#[trigger] rest[k]).1 is Some by {
                assert(rest[k] == es[k + 1]);
            }
        }
        lemma_entries_rest(s, e, rest);
    }
    assert(char_end(s, i, ',') == Some(j));
    assert(host_entry_end(s, j) == Some(e));
    assert(host_entries_rest_end(s, i) == host_entries_rest_end(s, e));
    if forall|k: int| 0 <= k < es.len() ==> (#[trigger] es[k]).1 is Some {
        assert(es[0].1 is Some);
        assert(hostname_and_port_end(s, j) == Some(e));
        assert(host_list_rest_end(s, i) == host_list_rest_end(s, e));
    }
}

/// Every non-empty list of hosts (addresses with parts of at most 255, or
/// `localhost`), each with an optional port of at most 65535, joined by
/// commas, is read whole as a list of host entries; where every entry has
/// its port, it is also read whole as a list of `host:port` entries.
pub proof fn lemma_host_lists_are_read_whole(es: Seq<(Option<(nat, nat, nat, nat)>, Option<nat>)>)
    requires
        es.len() > 0,
        forall|k: int| 0 <= k < es.len() ==> entry_in_range(#[trigger] es[k]),
    ensures
        host_entries_end(entries_text(es), 0) == Some(entries_text(es).len() as int),
        (forall|k: int| 0 <= k < es.len() ==> (#[trigger] es[k]).1 is Some) ==> host_list_end(
            entries_text(es),
            0,
        ) == entries_text(es).len(),
{
    let s = entries_text(es);
    let first = es[0];
    assert(entry_in_range(es[0]));
    let et = entry_text(first);
    let e = et.len() as int;
    if es.len() == 1 {
        assert(s == et);
        assert(s.subrange(0, e) =~= et);
        lemma_entry_read(s, 0, first);
        assert(char_end(s, e, ',') is None);
        assert(host_entries_rest_end(s, e) == e);
        assert(host_list_rest_end(s, e) == e);
    } else {
        let rest = es.drop_first();
        assert(s == et + (seq![','] + entries_text(rest)));
        assert(s.subrange(0, s.len() as int) =~= s);
        lemma_split_at(s, 0, et, seq![','] + entries_text(rest));
        assert(s[e] == ',') by {
            assert(s.subrange(e, s.len() as int)[0] == s[e]);
        }
        lemma_entry_read(s, 0, first);
        assert forall|k: int| 0 <= k < rest.len() implies entry_in_range(#[trigger] rest[k]) by {
            assert(rest[k] == es[k + 1]);
        }
        if forall|k: int| 0 <= k < es.len() ==> (#[trigger] es[k]).1 is Some {
            assert forall|k: int| 0 <= k < rest.len() implies (#[trigger] rest[k]).1 is Some by {
                assert(rest[k] == es[k + 1]);
            }
        }
        lemma_entries_rest(s, e, rest);
    }
}

/// A numeral standing alone is read as a number exactly when its value is
/// at most `max`.
pub proof fn lemma_numeral_alone(v: nat, max: nat)
    ensures
        number_end(numeral(v), 0, max) == if v <= max {
            Some(numeral(v).len() as int)
        } else {
            None
        },
{
    let s = numeral(v);
    lemma_numeral(v);
    assert(s.subrange(0, s.len() as int) =~= s);
    lemma_digits_end_at(s, 0, s.len() as int);
}

/// Ports take the whole valid range: the numeral of `p` is read whole as a
/// port exactly when `p` is at most 65535.
pub proof fn lemma_ports_take_the_valid_range(p: nat)
    ensures
        port_end(numeral(p), 0) == if p <= 65535 {
            Some(numeral(p).len() as int)
        } else {
            None
        },
{
    lemma_numeral_alone(p, 65535);
}

/// An address part is read whole exactly when it is at most 255.
pub proof fn lemma_octets_take_0_to_255(v: nat)
    ensures
        octet_end(numeral(v), 0) == if v <= 255 {
            Some(numeral(v).len() as int)
        } else {
            None
        },
{
    lemma_numeral_alone(v, 255);
}

/// A timeout is read whole exactly when it fits in a `u32`.
pub proof fn lemma_timeouts_fit_a_u32(t: nat)
    ensures
        timeout_end(numeral(t), 0) == if t <= u32_max() {
            Some(numeral(t).len() as int)
        } else {
            None
        },
{
    lemma_numeral_alone(t, u32_max());
}

/// Every three-part address `a.b.c` with `a` and `b` at most 255 and `c` at
/// most 65535 is read whole as an address.
pub proof fn lemma_dotted_trips_are_read_whole(a: nat, b: nat, c: nat)
    requires
        a <= 255,
        b <= 255,
        c <= 65535,
    ensures
        ip_end(dotted_trip(a, b, c), 0) == Some(dotted_trip(a, b, c).len() as int),
        hostname_end(dotted_trip(a, b, c), 0) == Some(dotted_trip(a, b, c).len() as int),
{
    let s = dotted_trip(a, b, c);
    let (na, nb, nc) = (numeral(a), numeral(b), numeral(c));
    let (la, lb, lc) = (na.len() as int, nb.len() as int, nc.len() as int);
    lemma_numeral(a);
    lemma_numeral(b);
    lemma_numeral(c);
    let p1 = la;
    let p2 = p1 + 1 + lb;
    let e = s.len() as int;
    assert(e == la + lb + lc + 2);
    assert(s.subrange(0, p1) =~= na);
    assert(s[p1] == '.');
    assert(s.subrange(p1 + 1, p2) =~= nb);
    assert(s[p2] == '.');
    assert(s.subrange(p2 + 1, e) =~= nc);
    lemma_numeral_read(s, 0, a, 255);
    lemma_numeral_read(s, p1 + 1, b, 255);
    lemma_numeral_read(s, p2 + 1, c, 65535);
    assert(char_end(s, p1, '.') == Some(p1 + 1));
    assert(char_end(s, p2, '.') == Some(p2 + 1));
    assert(ip_trip_end(s, 0) == Some(e));
    if c <= 255 {
        lemma_numeral_read(s, p2 + 1, c, 255);
        assert(char_end(s, e, '.') is None);
    } else {
        lemma_digits_end_at(s, p2 + 1, e);
        assert(decimal(s.subrange(p2 + 1, e)) == c);
        assert(octet_end(s, p2 + 1) is None);
    }
    assert(ip_quad_end(s, 0) is None);
}

/// An entry's text is never empty.
pub proof fn lemma_entry_text_not_empty(entry: (Option<(nat, nat, nat, nat)>, Option<nat>))
    ensures
        entry_text(entry).len() > 0,
{
    if let Some((a, b, c, d)) = entry.0 {
        lemma_numeral(a);
    }
}

} // verus!
