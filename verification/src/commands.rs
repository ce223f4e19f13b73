//! The log through which the menu of the session asks for things: one line to a
//! command, a number that rises and the verb.

use vstd::prelude::*;

use crate::process;
use crate::text;

verus! {

/// The texts of a list of commands.
pub open spec fn command_texts(v: Seq<(u128, String)>) -> Seq<(int, Seq<char>)> {
    v.map_values(|c: (u128, String)| (c.0 as int, c.1@))
}

/// The command of a line.
pub open spec fn command_of(line: Seq<char>) -> Option<(int, Seq<char>)> {
    match text::split_once(line, '\t') {
        Some((n, v)) => match text::unsigned_in(text::trimmed(n), u128::MAX as int) {
            Some(nonce) => if text::trimmed(v).len() > 0 {
                Some((nonce, text::trimmed(v)))
            } else {
                None
            },
            None => None,
        },
        None => None,
    }
}

/// `command_of`, computed.
pub fn parse_command(line: &str) -> (r: Option<(u128, String)>)
    ensures
        r is Some <==> command_of(line@) is Some,
        r matches Some((n, v)) ==> command_of(line@) == Some((n as int, v@)),
{
    match text::cut(line, '\t') {
        Some((n, v)) => {
            let t = text::trim(n.as_str());
            match text::parse_wide(t.as_str(), u128::MAX) {
                Some(nonce) => {
                    let verb = text::trim(v.as_str());
                    if verb.as_str().is_empty() {
                        None
                    } else {
                        Some((nonce, verb))
                    }
                },
                None => None,
            }
        },
        None => None,
    }
}

/// The commands of a list of lines; a line that is none is passed over.
pub open spec fn commands_in(ls: Seq<Seq<char>>) -> Seq<(int, Seq<char>)>
    decreases ls.len(),
{
    if ls.len() == 0 {
        seq![]
    } else {
        match command_of(ls.last()) {
            Some(c) => commands_in(ls.drop_last()).push(c),
            None => commands_in(ls.drop_last()),
        }
    }
}

/// The part of a text that ends with its last line feed.
pub open spec fn whole_lines(s: Seq<char>) -> Seq<char>
    decreases s.len(),
{
    if s.len() == 0 || s.last() == '\n' { s } else { whole_lines(s.drop_last()) }
}

/// Did the command come after the one with the number `after`?
pub open spec fn is_newer(c: (int, Seq<char>), after: Option<int>) -> bool {
    match after {
        Some(seen) => c.0 > seen,
        None => true,
    }
}

/// A list in order with one more command: behind all that are not newer.
pub open spec fn placed(s: Seq<(int, Seq<char>)>, c: (int, Seq<char>)) -> Seq<(int, Seq<char>)>
    decreases s.len(),
{
    if s.len() == 0 || s.last().0 <= c.0 {
        s.push(c)
    } else {
        placed(s.drop_last(), c).push(s.last())
    }
}

/// Commands in the order of their numbers; those of one number stay as they came.
pub open spec fn in_order(s: Seq<(int, Seq<char>)>) -> Seq<(int, Seq<char>)>
    decreases s.len(),
{
    if s.len() == 0 { seq![] } else { placed(in_order(s.drop_last()), s.last()) }
}

/// The commands of the log that came after the number `after`, oldest first. A line
/// that is still being written is not read.
pub open spec fn commands_after(body: Seq<char>, after: Option<int>) -> Seq<(int, Seq<char>)> {
    in_order(
        commands_in(text::lines(whole_lines(body))).filter(
            |c: (int, Seq<char>)| is_newer(c, after),
        ),
    )
}

/// A number as a mathematical one.
pub open spec fn wide(n: Option<u128>) -> Option<int> {
    match n {
        Some(k) => Some(k as int),
        None => None,
    }
}

proof fn lemma_whole_lines(s: Seq<char>, i: int)
    requires
        0 <= i <= s.len(),
        i > 0 ==> s[i - 1] == '\n',
        forall|k: int| i <= k < s.len() ==> s[k] != '\n',
    ensures
        whole_lines(s) == s.take(i),
    decreases s.len(),
{
    if i == s.len() {
        assert(s.take(i) =~= s);
    } else {
        lemma_whole_lines(s.drop_last(), i);
        assert(s.drop_last().take(i) =~= s.take(i));
    }
}

proof fn lemma_placed(s: Seq<(int, Seq<char>)>, c: (int, Seq<char>), i: int)
    requires
        0 <= i <= s.len(),
        i > 0 ==> s[i - 1].0 <= c.0,
        forall|k: int| i <= k < s.len() ==> (#[trigger] s[k]).0 > c.0,
    ensures
        placed(s, c) == s.insert(i, c),
    decreases s.len(),
{
    if i == s.len() {
        assert(s.insert(i, c) =~= s.push(c));
    } else {
        assert(s[s.len() - 1].0 > c.0);
        lemma_placed(s.drop_last(), c, i);
        assert(s.insert(i, c) =~= s.drop_last().insert(i, c).push(s.last()));
    }
}

/// Puts a command in its place.
fn place(v: &mut Vec<(u128, String)>, c: (u128, String))
    ensures
        command_texts(final(v)@) == placed(command_texts(old(v)@), (c.0 as int, c.1@)),
{
    let ghost s = command_texts(v@);
    let mut i: usize = v.len();
    while i > 0 && v[i - 1].0 > c.0
        invariant
            i <= v@.len(),
            v@ == old(v)@,
            s == command_texts(v@),
            forall|k: int| i <= k < s.len() ==> (#[trigger] s[k]).0 > c.0,
        decreases i,
    {
        assert(s[i - 1].0 == v@[i - 1].0);
        i = i - 1;
    }
    let ghost cv = (c.0 as int, c.1@);
    proof {
        if i > 0 {
            assert(s[i - 1].0 == v@[i - 1].0);
        }
        lemma_placed(s, cv, i as int);
    }
    v.insert(i, c);
    assert(command_texts(v@) =~= s.insert(i as int, cv));
}

/// `commands_after`, computed.
pub fn read_commands(body: &str, after: Option<u128>) -> (r: Vec<(u128, String)>)
    ensures
        command_texts(r@) == commands_after(body@, wide(after)),
{
    let v = text::chars_of(body);
    let mut n: usize = v.len();
    while n > 0 && v[n - 1] != '\n'
        invariant
            n <= v@.len(),
            forall|k: int| n <= k < v@.len() ==> v@[k] != '\n',
        decreases n,
    {
        n = n - 1;
    }
    proof {
        lemma_whole_lines(body@, n as int);
    }
    let whole = text::string_of(&v, 0, n);
    assert(whole@ =~= body@.take(n as int));
    let ls = text::split_lines(whole.as_str());
    let ghost t = text::lines(whole@);
    let ghost p = |c: (int, Seq<char>)| is_newer(c, wide(after));
    let mut out: Vec<(u128, String)> = Vec::new();
    let mut i: usize = 0;
    reveal(Seq::filter);
    assert(commands_in(t.take(0)).filter(p).len() == 0);
    assert(command_texts(out@) =~= in_order(commands_in(t.take(0)).filter(p)));
    while i < ls.len()
        invariant
            i <= ls@.len(),
            text::texts(ls@) == t,
            p == (|c: (int, Seq<char>)| is_newer(c, wide(after))),
            command_texts(out@) == in_order(commands_in(t.take(i as int)).filter(p)),
        decreases ls@.len() - i,
    {
        assert(text::texts(ls@)[i as int] == ls@[i as int]@);
        assert(t.take(i + 1).drop_last() =~= t.take(i as int));
        assert(t.take(i + 1).last() == ls@[i as int]@);
        if let Some(c) = parse_command(ls[i].as_str()) {
            let newer = match after {
                Some(seen) => c.0 > seen,
                None => true,
            };
            proof {
                let cs = commands_in(t.take(i as int));
                let cv = (c.0 as int, c.1@);
                lemma_filter_push(cs, cv, p);
                if p(cv) {
                    let f = cs.filter(p);
                    assert(f.push(cv).drop_last() =~= f);
                }
            }
            if newer {
                place(&mut out, c);
            }
        }
        i = i + 1;
    }
    assert(text::texts(ls@).len() == ls@.len());
    assert(t.take(i as int) =~= t);
    out
}

proof fn lemma_filter_push(
    s: Seq<(int, Seq<char>)>,
    c: (int, Seq<char>),
    p: spec_fn((int, Seq<char>)) -> bool,
)
    ensures
        s.push(c).filter(p) == if p(c) { s.filter(p).push(c) } else { s.filter(p) },
{
    reveal(Seq::filter);
    assert(s.push(c).drop_last() =~= s);
}

/// The largest number of a list of commands.
pub open spec fn newest_in(s: Seq<(int, Seq<char>)>) -> Option<int>
    decreases s.len(),
{
    if s.len() == 0 {
        None
    } else {
        match newest_in(s.drop_last()) {
            Some(n) => Some(if n < s.last().0 { s.last().0 } else { n }),
            None => Some(s.last().0),
        }
    }
}

/// The largest number in the log.
pub open spec fn newest(body: Seq<char>) -> Option<int> {
    newest_in(commands_in(text::lines(body)))
}

/// `newest`, computed.
pub fn last_command_nonce(body: &str) -> (r: Option<u128>)
    ensures
        wide(r) == newest(body@),
{
    let ls = text::split_lines(body);
    let ghost t = text::lines(body@);
    let mut best: Option<u128> = None;
    let mut i: usize = 0;
    assert(commands_in(t.take(0)).len() == 0);
    while i < ls.len()
        invariant
            i <= ls@.len(),
            text::texts(ls@) == t,
            wide(best) == newest_in(commands_in(t.take(i as int))),
        decreases ls@.len() - i,
    {
        assert(text::texts(ls@)[i as int] == ls@[i as int]@);
        assert(t.take(i + 1).drop_last() =~= t.take(i as int));
        assert(t.take(i + 1).last() == ls@[i as int]@);
        if let Some(c) = parse_command(ls[i].as_str()) {
            proof {
                let cs = commands_in(t.take(i as int));
                assert(cs.push((c.0 as int, c.1@)).drop_last() =~= cs);
            }
            best = match best {
                Some(n) => Some(if n < c.0 { c.0 } else { n }),
                None => Some(c.0),
            };
        }
        i = i + 1;
    }
    assert(text::texts(ls@).len() == ls@.len());
    assert(t.take(i as int) =~= t);
    best
}

/// The line of a command.
pub open spec fn command_text(nonce: nat, verb: Seq<char>) -> Seq<char> {
    text::decimal(nonce) + seq!['\t'] + verb + seq!['\n']
}

/// `command_text`, computed.
pub fn command_line(nonce: u128, verb: &str) -> (r: String)
    ensures
        r@ == command_text(nonce as nat, verb@),
{
    let mut s = text::decimal_wide(nonce);
    s.push('\t');
    s.append(verb);
    s.push('\n');
    assert(s@ =~= command_text(nonce as nat, verb@));
    s
}

// ------------------------------------------------------------------ laws ---

/// A verb that can stand on a line of the log.
pub open spec fn is_verb(v: Seq<char>) -> bool {
    v.len() > 0 && !v.contains('\n') && !text::is_space(v[0]) && !text::is_space(v.last())
}

/// The numbers of a list never fall.
pub open spec fn nonces_rise(s: Seq<(int, Seq<char>)>) -> bool {
    forall|i: int, j: int| 0 <= i < j < s.len() ==> (#[trigger] s[i]).0 <= (#[trigger] s[j]).0
}

proof fn lemma_placed_rises(s: Seq<(int, Seq<char>)>, c: (int, Seq<char>))
    requires
        nonces_rise(s),
    ensures
        nonces_rise(placed(s, c)),
        placed(s, c).len() == s.len() + 1,
        placed(s, c).to_multiset() == s.to_multiset().insert(c),
        forall|k: int|
            0 <= k < placed(s, c).len() ==> (#[trigger] placed(s, c)[k] == c) || s.contains(
                placed(s, c)[k],
            ),
    decreases s.len(),
{
    broadcast use vstd::seq_lib::group_to_multiset_ensures;

    let r = placed(s, c);
    if s.len() == 0 || s.last().0 <= c.0 {
        assert forall|i: int, j: int| 0 <= i < j < r.len() implies (#[trigger] r[i]).0
            <= (#[trigger] r[j]).0 by {
            if j == s.len() {
                if i < s.len() - 1 {
                    assert(s[i].0 <= s[s.len() - 1].0);
                }
            } else {
                assert(s[i].0 <= s[j].0);
            }
        }
        assert forall|k: int| 0 <= k < r.len() implies (#[trigger] r[k] == c) || s.contains(
            r[k],
        ) by {
            if k < s.len() {
                assert(s[k] == r[k]);
            }
        }
    } else {
        let d = s.drop_last();
        let l = s.last();
        assert forall|i: int, j: int| 0 <= i < j < d.len() implies (#[trigger] d[i]).0
            <= (#[trigger] d[j]).0 by {
            assert(s[i].0 <= s[j].0);
        }
        lemma_placed_rises(d, c);
        let q = placed(d, c);
        assert(r == q.push(l));
        assert forall|k: int| 0 <= k < q.len() implies (#[trigger] q[k]).0 <= l.0 by {
            if q[k] != c {
                let m = choose|m: int| 0 <= m < d.len() && d[m] == q[k];
                assert(s[m].0 <= s[s.len() - 1].0);
            }
        }
        assert forall|i: int, j: int| 0 <= i < j < r.len() implies (#[trigger] r[i]).0
            <= (#[trigger] r[j]).0 by {
            if j < q.len() {
                assert(q[i].0 <= q[j].0);
            }
        }
        assert forall|k: int| 0 <= k < r.len() implies (#[trigger] r[k] == c) || s.contains(
            r[k],
        ) by {
            if k < q.len() {
                assert(r[k] == q[k]);
                if q[k] != c {
                    let m = choose|m: int| 0 <= m < d.len() && d[m] == q[k];
                    assert(s[m] == q[k]);
                }
            } else {
                assert(s[s.len() - 1] == l);
            }
        }
        assert(s =~= d.push(l));
        assert(r.to_multiset() =~= s.to_multiset().insert(c));
    }
}

proof fn lemma_in_order(s: Seq<(int, Seq<char>)>)
    ensures
        nonces_rise(in_order(s)),
        in_order(s).len() == s.len(),
        in_order(s).to_multiset() == s.to_multiset(),
        forall|k: int| 0 <= k < in_order(s).len() ==> s.contains(#[trigger] in_order(s)[k]),
    decreases s.len(),
{
    broadcast use vstd::seq_lib::group_to_multiset_ensures;

    if s.len() == 0 {
        assert(in_order(s) =~= s);
    } else {
        let d = s.drop_last();
        lemma_in_order(d);
        lemma_placed_rises(in_order(d), s.last());
        assert(s =~= d.push(s.last()));
        assert forall|k: int| 0 <= k < in_order(s).len() implies s.contains(
            #[trigger] in_order(s)[k],
        ) by {
            let x = in_order(s)[k];
            if x == s.last() {
                assert(s[s.len() - 1] == x);
            } else {
                let o = in_order(d);
                assert(o.contains(x));
                let m = choose|m: int| 0 <= m < o.len() && o[m] == x;
                assert(d.contains(o[m]));
                let n = choose|n: int| 0 <= n < d.len() && d[n] == x;
                assert(s[n] == x);
            }
        }
    }
}

/// The commands come oldest first, and they are the newer ones of the log: none is
/// lost, and none is made up.
pub proof fn law_commands_come_oldest_first(body: Seq<char>, after: Option<int>)
    ensures
        nonces_rise(commands_after(body, after)),
        commands_after(body, after).to_multiset() == commands_in(
            text::lines(whole_lines(body)),
        ).filter(|c: (int, Seq<char>)| is_newer(c, after)).to_multiset(),
{
    lemma_in_order(
        commands_in(text::lines(whole_lines(body))).filter(
            |c: (int, Seq<char>)| is_newer(c, after),
        ),
    );
}

proof fn lemma_placed_filter(
    s: Seq<(int, Seq<char>)>,
    c: (int, Seq<char>),
    seen: int,
    p: spec_fn((int, Seq<char>)) -> bool,
)
    requires
        nonces_rise(s),
        p == (|c: (int, Seq<char>)| is_newer(c, Some(seen))),
    ensures
        placed(s, c).filter(p) == if p(c) { placed(s.filter(p), c) } else { s.filter(p) },
    decreases s.len(),
{
    reveal(Seq::filter);
    if s.len() == 0 {
        lemma_filter_push(s, c, p);
    } else {
        let d = s.drop_last();
        let l = s.last();
        assert(s =~= d.push(l));
        lemma_filter_push(d, l, p);
        assert forall|i: int, j: int| 0 <= i < j < d.len() implies (#[trigger] d[i]).0
            <= (#[trigger] d[j]).0 by {
            assert(s[i].0 <= s[j].0);
        }
        if l.0 <= c.0 {
            lemma_filter_push(s, c, p);
            if p(c) && !p(l) {
                assert forall|k: int| 0 <= k < s.len() implies !p(#[trigger] s[k]) by {
                    if k < s.len() - 1 {
                        assert(s[k].0 <= s[s.len() - 1].0);
                    }
                }
                lemma_filter_none(s, p);
            }
        } else {
            lemma_placed_filter(d, c, seen, p);
            lemma_filter_push(placed(d, c), l, p);
            if p(l) && p(c) {
                let f = d.filter(p);
                assert(f.push(l).drop_last() =~= f);
            }
        }
    }
}

proof fn lemma_filter_none(
    s: Seq<(int, Seq<char>)>,
    p: spec_fn((int, Seq<char>)) -> bool,
)
    requires
        forall|k: int| 0 <= k < s.len() ==> !p(#[trigger] s[k]),
    ensures
        s.filter(p) == Seq::<(int, Seq<char>)>::empty(),
    decreases s.len(),
{
    reveal(Seq::filter);
    if s.len() > 0 {
        assert(!p(s[s.len() - 1]));
        let d = s.drop_last();
        assert forall|k: int| 0 <= k < d.len() implies !p(#[trigger] d[k]) by {
            assert(!p(s[k]));
        }
        lemma_filter_none(d, p);
    }
}

proof fn lemma_order_filter(
    s: Seq<(int, Seq<char>)>,
    seen: int,
    p: spec_fn((int, Seq<char>)) -> bool,
)
    requires
        p == (|c: (int, Seq<char>)| is_newer(c, Some(seen))),
    ensures
        in_order(s.filter(p)) == in_order(s).filter(p),
    decreases s.len(),
{
    reveal(Seq::filter);
    if s.len() == 0 {
        assert(in_order(s.filter(p)) =~= in_order(s).filter(p));
    } else {
        let d = s.drop_last();
        let c = s.last();
        lemma_order_filter(d, seen, p);
        lemma_in_order(d);
        lemma_placed_filter(in_order(d), c, seen, p);
        assert(s =~= d.push(c));
        lemma_filter_push(d, c, p);
        if p(c) {
            let f = d.filter(p);
            assert(f.push(c).drop_last() =~= f);
        }
    }
}

proof fn lemma_filter_all(s: Seq<(int, Seq<char>)>, p: spec_fn((int, Seq<char>)) -> bool)
    requires
        forall|k: int| 0 <= k < s.len() ==> p(#[trigger] s[k]),
    ensures
        s.filter(p) == s,
    decreases s.len(),
{
    reveal(Seq::filter);
    if s.len() > 0 {
        let d = s.drop_last();
        assert(p(s[s.len() - 1]));
        assert forall|k: int| 0 <= k < d.len() implies p(#[trigger] d[k]) by {
            assert(p(s[k]));
        }
        lemma_filter_all(d, p);
        assert(s =~= d.push(s.last()));
    } else {
        assert(s.filter(p) =~= s);
    }
}

/// Reading on from a number gives the commands of the whole log that came after it.
pub proof fn law_reading_on_skips_what_was_read(body: Seq<char>, seen: int)
    ensures
        commands_after(body, Some(seen)) == commands_after(body, None).filter(
            |c: (int, Seq<char>)| is_newer(c, Some(seen)),
        ),
{
    let cs = commands_in(text::lines(whole_lines(body)));
    let p = |c: (int, Seq<char>)| is_newer(c, Some(seen));
    let every = |c: (int, Seq<char>)| is_newer(c, None);
    lemma_filter_all(cs, every);
    lemma_order_filter(cs, seen, p);
}

/// A line that is still being written waits: it is not read before its line feed.
pub proof fn law_a_partial_line_waits(body: Seq<char>, partial: Seq<char>, after: Option<int>)
    requires
        text::ends_a_line(body),
        !partial.contains('\n'),
    ensures
        commands_after(body + partial, after) == commands_after(body, after),
{
    let s = body + partial;
    let n = body.len() as int;
    assert forall|k: int| n <= k < s.len() implies s[k] != '\n' by {
        assert(partial.contains(partial[k - n]));
    }
    lemma_whole_lines(s, n);
    assert(s.take(n) =~= body);
    assert(whole_lines(body) == body);
}

proof fn lemma_newest(s: Seq<(int, Seq<char>)>)
    ensures
        s.len() > 0 ==> newest_in(s) is Some,
        forall|k: int| 0 <= k < s.len() ==> (#[trigger] s[k]).0 <= newest_in(s)->0,
    decreases s.len(),
{
    if s.len() > 0 {
        let d = s.drop_last();
        lemma_newest(d);
        assert forall|k: int| 0 <= k < s.len() implies (#[trigger] s[k]).0 <= newest_in(s)->0 by {
            if k < d.len() {
                assert(d[k] == s[k]);
            }
        }
    }
}

proof fn lemma_commands_concat(a: Seq<Seq<char>>, b: Seq<Seq<char>>)
    ensures
        commands_in(a + b) == commands_in(a) + commands_in(b),
    decreases b.len(),
{
    if b.len() == 0 {
        assert(a + b =~= a);
        assert(commands_in(a) + commands_in(b) =~= commands_in(a));
    } else {
        assert((a + b).drop_last() =~= a + b.drop_last());
        assert((a + b).last() == b.last());
        lemma_commands_concat(a, b.drop_last());
        assert(commands_in(a + b) =~= commands_in(a) + commands_in(b));
    }
}

proof fn lemma_whole_prefix(s: Seq<char>)
    ensures
        text::ends_a_line(whole_lines(s)),
        exists|t: Seq<char>| s == #[trigger] (whole_lines(s) + t),
    decreases s.len(),
{
    if s.len() == 0 || s.last() == '\n' {
        assert(s =~= whole_lines(s) + Seq::<char>::empty());
    } else {
        lemma_whole_prefix(s.drop_last());
        let w = whole_lines(s.drop_last());
        let t = choose|t: Seq<char>| s.drop_last() == #[trigger] (w + t);
        assert(s =~= s.drop_last().push(s.last()));
        assert(s =~= w + t.push(s.last()));
    }
}

/// One that starts at the newest number of the log reads none of its backlog.
pub proof fn law_the_backlog_is_stepped_over(body: Seq<char>)
    ensures
        newest(body) is Some ==> commands_after(body, newest(body)).len() == 0,
        newest(body) is None ==> commands_after(body, None).len() == 0,
{
    lemma_whole_prefix(body);
    let w = whole_lines(body);
    let t = choose|t: Seq<char>| body == #[trigger] (w + t);
    text::lemma_lines_concat(w, t);
    let a = commands_in(text::lines(w));
    let b = commands_in(text::lines(t));
    lemma_commands_concat(text::lines(w), text::lines(t));
    lemma_newest(a + b);
    let p = |c: (int, Seq<char>)| is_newer(c, newest(body));
    if newest(body) is Some {
        assert forall|k: int| 0 <= k < a.len() implies !p(#[trigger] a[k]) by {
            assert((a + b)[k] == a[k]);
        }
        lemma_filter_none(a, p);
    } else {
        assert(a.len() == 0);
        lemma_filter_none(a, p);
    }
}

proof fn lemma_command_reads_back(nonce: nat, verb: Seq<char>)
    requires
        nonce <= u128::MAX,
        is_verb(verb),
    ensures
        ({
            let l = text::decimal(nonce) + seq!['\t'] + verb;
            text::is_line(l) && command_of(l) == Some((nonce as int, verb))
        }),
{
    let d = text::decimal(nonce);
    let l = d + seq!['\t'] + verb;
    process::lemma_decimal_plain(nonce);
    text::lemma_decimal_reads_back(nonce);
    text::lemma_decimal_parses(nonce, u128::MAX as int);
    text::lemma_trimmed_is(verb);
    assert(!d.contains('\t')) by {
        if d.contains('\t') {
            let k = choose|k: int| 0 <= k < d.len() && d[k] == '\t';
            assert(text::is_digit(d[k]));
        }
    }
    text::lemma_split_once_at(d, verb, '\t');
    assert(l.last() == verb.last());
    assert(!l.contains('\n')) by {
        if l.contains('\n') {
            let k = choose|k: int| 0 <= k < l.len() && l[k] == '\n';
            if k < d.len() {
                assert(d.contains(d[k]));
            } else if k > d.len() {
                assert(verb.contains(verb[k - d.len() - 1]));
            }
        }
    }
}

/// A command that is appended to the log is read, once, after all that were there:
/// every command before it has no larger number.
pub proof fn law_an_appended_command_is_read(
    body: Seq<char>,
    nonce: nat,
    verb: Seq<char>,
    after: Option<int>,
)
    requires
        text::ends_a_line(body),
        nonce <= u128::MAX,
        is_verb(verb),
        newest(body) is Some ==> newest(body)->0 <= nonce,
        after is Some ==> after->0 < nonce,
    ensures
        commands_after(body + command_text(nonce, verb), after) == commands_after(
            body,
            after,
        ).push((nonce as int, verb)),
{
    let l = text::decimal(nonce) + seq!['\t'] + verb;
    let c = (nonce as int, verb);
    let s = body + command_text(nonce, verb);
    lemma_command_reads_back(nonce, verb);
    text::lemma_one_line(l);
    assert(command_text(nonce, verb) =~= l + seq!['\n']);
    text::lemma_lines_concat(body, l + seq!['\n']);
    assert(s.last() == '\n');
    assert(whole_lines(s) == s);
    assert(whole_lines(body) == body);
    let cs = commands_in(text::lines(body));
    let p = |c: (int, Seq<char>)| is_newer(c, after);
    assert(text::lines(s) =~= text::lines(body).push(l));
    assert(text::lines(body).push(l).drop_last() =~= text::lines(body));
    assert(commands_in(text::lines(s)) == cs.push(c));
    lemma_filter_push(cs, c, p);
    let f = cs.filter(p);
    assert(f.push(c).drop_last() =~= f);
    lemma_in_order(f);
    lemma_newest(cs);
    let o = in_order(f);
    if o.len() > 0 {
        assert(f.contains(o[o.len() - 1]));
        lemma_filter_from(cs, p);
        let k = choose|k: int| 0 <= k < f.len() && f[k] == o[o.len() - 1];
        assert(cs.contains(f[k]));
        let m = choose|m: int| 0 <= m < cs.len() && cs[m] == f[k];
        assert(cs[m].0 <= nonce);
    }
}

proof fn lemma_filter_from(s: Seq<(int, Seq<char>)>, p: spec_fn((int, Seq<char>)) -> bool)
    ensures
        forall|k: int| 0 <= k < s.filter(p).len() ==> s.contains(#[trigger] s.filter(p)[k]),
    decreases s.len(),
{
    reveal(Seq::filter);
    if s.len() > 0 {
        let d = s.drop_last();
        lemma_filter_from(d, p);
        assert forall|k: int| 0 <= k < s.filter(p).len() implies s.contains(
            #[trigger] s.filter(p)[k],
        ) by {
            if k < d.filter(p).len() {
                let x = d.filter(p)[k];
                assert(d.contains(x));
                let m = choose|m: int| 0 <= m < d.len() && d[m] == x;
                assert(s[m] == x);
            } else {
                assert(s[s.len() - 1] == s.last());
            }
        }
    }
}

} // verus!
