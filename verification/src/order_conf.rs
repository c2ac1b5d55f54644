//! Parsing of an order-topic configuration string: `broker:count` entries
//! separated by `;`, each enumerating the queues of one broker.
use vstd::prelude::*;

use crate::route::{MessageQueue, MqView};
use crate::strutil::{digit_val, digits_val, digit_of, is_digit};

verus! {

/// Splitting on `;`, as Rust's `str::split(';')` does: an empty string
/// yields one empty segment, and a trailing `;` yields a trailing empty
/// segment.
pub open spec fn split_semi(s: Seq<char>) -> Seq<Seq<char>>
    decreases s.len(),
{
    if s.len() == 0 {
        seq![Seq::<char>::empty()]
    } else if s[0] == ';' {
        seq![Seq::<char>::empty()] + split_semi(s.skip(1))
    } else {
        let rest = split_semi(s.skip(1));
        seq![seq![s[0]] + rest[0]] + rest.skip(1)
    }
}

/// A string without `;` is one segment.
pub proof fn lemma_split_no_semi(s: Seq<char>)
    requires
        forall|i: int| 0 <= i < s.len() ==> s[i] != ';',
    ensures
        split_semi(s) == seq![s],
    decreases s.len(),
{
    if s.len() == 0 {
        assert(s =~= Seq::<char>::empty());
    } else {
        let rest = s.skip(1);
        assert(forall|i: int| 0 <= i < rest.len() ==> rest[i] == s[i + 1]);
        lemma_split_no_semi(rest);
        assert(seq![s[0]] + rest =~= s);
        assert(split_semi(s) =~= seq![s]);
    }
}

/// Splitting at the first `;`: the head segment, then the split of the tail.
pub proof fn lemma_split_first(a: Seq<char>, b: Seq<char>)
    requires
        forall|i: int| 0 <= i < a.len() ==> a[i] != ';',
    ensures
        split_semi(a + seq![';'] + b) == seq![a] + split_semi(b),
    decreases a.len(),
{
    let s = a + seq![';'] + b;
    if a.len() == 0 {
        assert(a =~= Seq::<char>::empty());
        assert(s =~= seq![';'] + b);
        assert(s[0] == ';');
        assert(s.skip(1) =~= b);
        assert(split_semi(s) =~= seq![a] + split_semi(b));
    } else {
        let at = a.skip(1);
        assert(forall|i: int| 0 <= i < at.len() ==> at[i] == a[i + 1]);
        lemma_split_first(at, b);
        assert(s[0] == a[0]);
        assert(s[0] != ';');
        assert(s.skip(1) =~= at + seq![';'] + b);
        let rest = split_semi(s.skip(1));
        assert(rest == seq![at] + split_semi(b));
        assert(rest[0] == at);
        assert(seq![s[0]] + rest[0] =~= a);
        assert(rest.skip(1) =~= split_semi(b));
        assert(split_semi(s) =~= seq![a] + split_semi(b));
    }
}

/// Split a string on `;`, matching `split_semi`.
pub fn split_semi_exec(s: &str) -> (segs: Vec<String>)
    ensures
        segs@.map_values(|x: String| x@) == split_semi(s@),
{
    let n = s.unicode_len();
    let mut out: Vec<String> = Vec::new();
    let mut seg_start: usize = 0;
    proof {
        assert(s@.skip(0) =~= s@);
        assert(out@.map_values(|x: String| x@).len() == 0);
        assert(out@.map_values(|x: String| x@) + split_semi(s@) =~= split_semi(s@));
    }
    for j in 0..n
        invariant
            n == s@.len(),
            seg_start <= j,
            forall|k: int| seg_start <= k < j ==> s@[k] != ';',
            out@.map_values(|x: String| x@) + split_semi(s@.skip(seg_start as int)) == split_semi(
                s@,
            ),
    {
        let c = s.get_char(j);
        if c == ';' {
            let seg = s.substring_char(seg_start, j).to_owned();
            proof {
                let pre = s@.subrange(seg_start as int, j as int);
                assert(seg@ == pre);
                assert(forall|k: int| 0 <= k < pre.len() ==> pre[k] == s@[seg_start + k]);
                assert(s@.skip(seg_start as int) =~= pre + seq![';'] + s@.skip(j + 1));
                lemma_split_first(pre, s@.skip(j + 1));
                let om = out@.map_values(|x: String| x@);
                assert((out@.push(seg)).map_values(|x: String| x@) =~= om.push(seg@));
                assert(om.push(seg@) + split_semi(s@.skip(j + 1)) =~= om + (seq![pre]
                    + split_semi(s@.skip(j + 1))));
            }
            out.push(seg);
            seg_start = j + 1;
        }
    }
    let seg = s.substring_char(seg_start, n).to_owned();
    proof {
        let pre = s@.subrange(seg_start as int, n as int);
        assert(pre =~= s@.skip(seg_start as int));
        assert(forall|k: int| 0 <= k < pre.len() ==> pre[k] == s@[seg_start + k]);
        lemma_split_no_semi(pre);
        let om = out@.map_values(|x: String| x@);
        assert((out@.push(seg)).map_values(|x: String| x@) =~= om.push(seg@));
        assert(om.push(seg@) =~= om + seq![pre]);
    }
    out.push(seg);
    out
}

/// How many times `c` occurs in `s`.
pub open spec fn count_ch(s: Seq<char>, c: char) -> nat
    decreases s.len(),
{
    if s.len() == 0 {
        0
    } else {
        count_ch(s.drop_last(), c) + (if s.last() == c {
            1nat
        } else {
            0nat
        })
    }
}

/// Index of the first occurrence of `c` in `s`, or -1.
pub open spec fn find_ch(s: Seq<char>, c: char) -> int
    decreases s.len(),
{
    if s.len() == 0 {
        -1
    } else if s[0] == c {
        0
    } else if find_ch(s.skip(1), c) == -1 {
        -1
    } else {
        find_ch(s.skip(1), c) + 1
    }
}

/// Characterization of `find_ch` as the first occurrence.
pub proof fn lemma_find_ch(s: Seq<char>, c: char)
    ensures
        find_ch(s, c) == -1 ==> forall|i: int| 0 <= i < s.len() ==> s[i] != c,
        find_ch(s, c) != -1 ==> 0 <= find_ch(s, c) < s.len() && s[find_ch(s, c)] == c,
        find_ch(s, c) != -1 ==> forall|j: int| 0 <= j < find_ch(s, c) ==> s[j] != c,
    decreases s.len(),
{
    if s.len() > 0 {
        lemma_find_ch(s.skip(1), c);
        let rest = s.skip(1);
        assert(forall|i: int| 0 <= i < rest.len() ==> rest[i] == s[i + 1]);
        if s[0] != c {
            let fr = find_ch(rest, c);
            if fr == -1 {
                assert forall|i: int| 0 <= i < s.len() implies s[i] != c by {
                    if i > 0 {
                        assert(rest[i - 1] != c);
                    }
                }
            } else {
                assert(s[fr + 1] == rest[fr]);
                assert forall|j: int| 0 <= j < fr + 1 implies s[j] != c by {
                    if j > 0 {
                        assert(rest[j - 1] != c);
                    }
                }
            }
        }
    }
}

/// Position of the unique `:` of a segment, if the segment has exactly one.
pub fn colon_split(seg: &str) -> (r: Option<usize>)
    ensures
        match r {
            Some(p) => count_ch(seg@, ':') == 1 && p == find_ch(seg@, ':') && p < seg@.len()
                && seg@[p as int] == ':',
            None => count_ch(seg@, ':') != 1,
        },
{
    let n = seg.unicode_len();
    let mut cnt: usize = 0;
    let mut fp: usize = 0;
    for j in 0..n
        invariant
            n == seg@.len(),
            cnt <= j,
            cnt == count_ch(seg@.take(j as int), ':'),
            cnt == 0 ==> forall|k: int| 0 <= k < j ==> seg@[k] != ':',
            cnt >= 1 ==> fp < j && seg@[fp as int] == ':' && (forall|k: int|
                0 <= k < fp ==> seg@[k] != ':'),
    {
        let c = seg.get_char(j);
        proof {
            assert(seg@.take(j + 1).drop_last() =~= seg@.take(j as int));
            assert(seg@.take(j + 1).last() == seg@[j as int]);
        }
        if c == ':' {
            if cnt == 0 {
                fp = j;
            }
            cnt = cnt + 1;
        }
    }
    proof {
        assert(seg@.take(n as int) =~= seg@);
    }
    if cnt == 1 {
        proof {
            lemma_find_ch(seg@, ':');
            let f = find_ch(seg@, ':');
            assert(f != -1);
            assert(f == fp as int) by {
                if f < fp as int {
                    assert(seg@[f] != ':');
                } else if f > fp as int {
                    assert(seg@[fp as int] != ':');
                }
            }
        }
        Some(fp)
    } else {
        None
    }
}

/// The digits of a decimal numeral: what follows an optional sign.
pub open spec fn parse_body(s: Seq<char>) -> Seq<char> {
    if s.len() > 0 && (s[0] == '-' || s[0] == '+') {
        s.skip(1)
    } else {
        s
    }
}

/// Every character is a decimal digit.
pub open spec fn all_digits(s: Seq<char>) -> bool {
    forall|k: int| 0 <= k < s.len() ==> is_digit(#[trigger] s[k])
}

/// Whether `s` reads as a 32-bit signed decimal integer: an optional
/// sign, at least one digit, and a value in range.
pub open spec fn parse_i32_ok(s: Seq<char>) -> bool {
    parse_body(s).len() > 0 && all_digits(parse_body(s)) && (if s.len() > 0 && s[0] == '-' {
        digits_val(parse_body(s)) <= 2147483648
    } else {
        digits_val(parse_body(s)) <= 2147483647
    })
}

/// The number of queues an entry enumerates: the parsed value, or zero when
/// it is not positive.
pub open spec fn parse_queue_count_spec(s: Seq<char>) -> nat {
    if s.len() > 0 && s[0] == '-' {
        0
    } else {
        digits_val(parse_body(s))
    }
}

/// Parse the queue count after the `:` of a segment.
pub fn parse_queue_count(seg: &str, p: usize) -> (r: Option<u32>)
    requires
        p < seg@.len(),
    ensures
        match r {
            Some(cnt) => parse_i32_ok(seg@.skip(p + 1)) && cnt == parse_queue_count_spec(
                seg@.skip(p + 1),
            ),
            None => !parse_i32_ok(seg@.skip(p + 1)),
        },
{
    let n = seg.unicode_len();
    let ghost tail = seg@.skip(p + 1);
    proof {
        assert(forall|k: int| 0 <= k < tail.len() ==> tail[k] == seg@[p + 1 + k]);
    }
    if p + 1 >= n {
        proof {
            assert(tail.len() == 0);
            assert(parse_body(tail) == tail);
        }
        return None;
    }
    let first = seg.get_char(p + 1);
    let neg = first == '-';
    let signed = neg || first == '+';
    let body_start: usize = if signed {
        p + 2
    } else {
        p + 1
    };
    let ghost body = if signed {
        tail.skip(1)
    } else {
        tail
    };
    proof {
        assert(forall|k: int| 0 <= k < body.len() ==> body[k] == seg@[body_start + k]);
        assert(body.len() == n - body_start);
    }
    if body_start >= n {
        proof {
            assert(parse_body(tail) == body);
            assert(body.len() == 0);
        }
        return None;
    }
    let mut acc: u64 = 0;
    let mut too_big = false;
    for j in body_start..n
        invariant
            n == seg@.len(),
            p + 1 < n,
            body_start <= j,
            tail == seg@.skip(p + 1),
            tail.len() > 0,
            signed == (tail[0] == '-' || tail[0] == '+'),
            neg == (tail[0] == '-'),
            body == (if signed {
                tail.skip(1)
            } else {
                tail
            }),
            body.len() == n - body_start,
            forall|k: int| 0 <= k < body.len() ==> body[k] == seg@[body_start + k],
            forall|k: int| 0 <= k < j - body_start ==> is_digit(#[trigger] body[k]),
            !too_big ==> acc == digits_val(body.take(j - body_start)) && acc <= 2147483648,
            too_big ==> digits_val(body.take(j - body_start)) > 2147483648,
    {
        let c = seg.get_char(j);
        let d = digit_val(c);
        proof {
            assert(body[j - body_start] == seg@[j as int]);
            assert(body.take(j - body_start + 1).drop_last() =~= body.take(j - body_start));
            assert(body.take(j - body_start + 1).last() == body[j - body_start]);
        }
        if d >= 10 {
            proof {
                assert(!is_digit(body[j - body_start]));
                assert(parse_body(tail) == body);
                assert(!all_digits(body));
            }
            return None;
        }
        if too_big {
            proof {
                let v = digits_val(body.take(j - body_start));
                assert(digits_val(body.take(j - body_start + 1)) == v * 10 + digit_of(
                    body[j - body_start],
                ));
                assert(v * 10 >= v);
            }
        } else {
            acc = acc * 10 + (d as u64);
            if acc > 2147483648 {
                too_big = true;
            }
        }
    }
    proof {
        assert(body.take(n - body_start) =~= body);
        assert(parse_body(tail) == body);
    }
    if too_big {
        return None;
    }
    if neg {
        Some(0)
    } else {
        if acc > 2147483647 {
            None
        } else {
            Some(acc as u32)
        }
    }
}

/// What one segment contributes: the broker name before the `:` and the
/// queue count after it; nothing when the segment does not have exactly one
/// `:`.
pub open spec fn order_entry(seg: Seq<char>) -> Option<(Seq<char>, nat)> {
    if count_ch(seg, ':') == 1 {
        let p = find_ch(seg, ':');
        Some((seg.take(p), parse_queue_count_spec(seg.skip(p + 1))))
    } else {
        None
    }
}

/// The queues one segment enumerates, in ascending queue-id order.
pub open spec fn entry_queues(topic: Seq<char>, seg: Seq<char>) -> Seq<MqView> {
    match order_entry(seg) {
        None => Seq::<MqView>::empty(),
        Some(e) => Seq::new(
            e.1,
            |i: int| MqView { topic, broker_name: e.0, queue_id: i as u32 },
        ),
    }
}

/// The queues a list of segments enumerates, in textual order.
pub open spec fn order_queues_from(topic: Seq<char>, segs: Seq<Seq<char>>) -> Seq<MqView>
    decreases segs.len(),
{
    if segs.len() == 0 {
        Seq::<MqView>::empty()
    } else {
        order_queues_from(topic, segs.drop_last()) + entry_queues(topic, segs.last())
    }
}

/// The queues an order-topic configuration string enumerates.
pub open spec fn order_queues(topic: Seq<char>, conf: Seq<char>) -> Seq<MqView> {
    order_queues_from(topic, split_semi(conf))
}

/// A segment is acceptable when a readable queue count follows its `:`,
/// if it has exactly one; an unreadable count is a protocol violation.
pub open spec fn valid_order_seg(seg: Seq<char>) -> bool {
    count_ch(seg, ':') == 1 ==> parse_i32_ok(seg.skip(find_ch(seg, ':') + 1))
}

/// Every segment of the configuration is acceptable.
pub open spec fn valid_order_conf(conf: Seq<char>) -> bool {
    forall|i: int|
        0 <= i < split_semi(conf).len() ==> valid_order_seg(#[trigger] split_semi(conf)[i])
}

/// Decide `valid_order_conf`.
pub fn order_conf_is_valid(conf: &str) -> (r: bool)
    ensures
        r == valid_order_conf(conf@),
{
    let segs = split_semi_exec(conf);
    let n = segs.len();
    proof {
        assert(segs@.map_values(|x: String| x@).len() == n);
    }
    for i in 0..n
        invariant
            n == segs@.len(),
            segs@.map_values(|x: String| x@) == split_semi(conf@),
            forall|j: int| 0 <= j < i ==> valid_order_seg(#[trigger] split_semi(conf@)[j]),
    {
        let seg = &segs[i];
        proof {
            assert(split_semi(conf@)[i as int] == seg@);
        }
        match colon_split(seg.as_str()) {
            Some(p) => {
                if parse_queue_count(seg.as_str(), p).is_none() {
                    proof {
                        assert(!valid_order_seg(split_semi(conf@)[i as int]));
                    }
                    return false;
                }
            },
            None => {},
        }
    }
    true
}

/// Append the queues the configuration enumerates, broker by broker.
pub fn build_order_queues(topic: &str, conf: &str, out: &mut Vec<MessageQueue>)
    requires
        valid_order_conf(conf@),
    ensures
        final(out)@.map_values(|m: MessageQueue| m@) == old(out)@.map_values(|m: MessageQueue| m@)
            + order_queues(topic@, conf@),
{
    let ghost base = old(out)@.map_values(|m: MessageQueue| m@);
    let segs = split_semi_exec(conf);
    let n = segs.len();
    proof {
        assert(segs@.map_values(|x: String| x@).len() == n);
        assert(order_queues_from(topic@, split_semi(conf@).take(0)) =~= Seq::<MqView>::empty());
        assert(base + order_queues_from(topic@, split_semi(conf@).take(0)) =~= base);
    }
    for i in 0..n
        invariant
            n == segs@.len(),
            segs@.map_values(|x: String| x@) == split_semi(conf@),
            valid_order_conf(conf@),
            topic@ == topic@,
            out@.map_values(|m: MessageQueue| m@) == base + order_queues_from(
                topic@,
                split_semi(conf@).take(i as int),
            ),
    {
        let seg = &segs[i];
        proof {
            assert(split_semi(conf@)[i as int] == seg@);
        }
        let ghost before = out@.map_values(|m: MessageQueue| m@);
        match colon_split(seg.as_str()) {
            Some(p) => {
                let cnt = match parse_queue_count(seg.as_str(), p) {
                    Some(c) => c,
                    None => {
                        proof {
                            assert(valid_order_seg(split_semi(conf@)[i as int]));
                            assert(false);
                        }
                        0
                    },
                };
                let name = seg.substring_char(0, p);
                proof {
                    assert(name@ =~= seg@.take(p as int));
                    assert(entry_queues(topic@, seg@) == Seq::new(
                        cnt as nat,
                        |q: int| MqView { topic: topic@, broker_name: name@, queue_id: q as u32 },
                    ));
                }
                for q in 0..cnt
                    invariant
                        name@ == seg@.take(find_ch(seg@, ':')),
                        out@.map_values(|m: MessageQueue| m@) == before + Seq::new(
                            q as nat,
                            |k: int|
                                MqView { topic: topic@, broker_name: name@, queue_id: k as u32 },
                        ),
                {
                    let mq = MessageQueue::from_parts(topic, name, q);
                    proof {
                        let f = |k: int| MqView {
                            topic: topic@,
                            broker_name: name@,
                            queue_id: k as u32,
                        };
                        assert((out@.push(mq)).map_values(|m: MessageQueue| m@) =~= out@.map_values(
                            |m: MessageQueue| m@,
                        ).push(mq@));
                        assert(Seq::new((q + 1) as nat, f) =~= Seq::new(q as nat, f).push(f(
                            q as int,
                        )));
                        assert(out@.map_values(|m: MessageQueue| m@).push(mq@) =~= before
                            + Seq::new((q + 1) as nat, f));
                    }
                    out.push(mq);
                }
                proof {
                    assert(out@.map_values(|m: MessageQueue| m@) =~= before + entry_queues(
                        topic@,
                        seg@,
                    ));
                }
            },
            None => {
                proof {
                    assert(entry_queues(topic@, seg@) =~= Seq::<MqView>::empty());
                    assert(out@.map_values(|m: MessageQueue| m@) =~= before + entry_queues(
                        topic@,
                        seg@,
                    ));
                }
            },
        }
        proof {
            assert(split_semi(conf@).take(i + 1).drop_last() =~= split_semi(conf@).take(i as int));
            assert(split_semi(conf@).take(i + 1).last() == seg@);
            assert(out@.map_values(|m: MessageQueue| m@) =~= base + order_queues_from(
                topic@,
                split_semi(conf@).take(i + 1),
            ));
        }
    }
    proof {
        assert(split_semi(conf@).take(n as int) =~= split_semi(conf@));
    }
}

} // verus!
