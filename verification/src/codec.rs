//! The persisted form of a store: a pretty-printed JSON text with
//! four-space indentation, tasks first and the counter last, every
//! string quoted with `"` and `\` escaped, every number a canonical
//! decimal numeral. `to_json` produces exactly this text; `from_json`
//! accepts exactly this text and nothing else, so that saving, loading
//! and saving again yields byte-identical output.

use vstd::prelude::*;

use crate::chars::chars_to_string;
use crate::chars::string_to_chars;
use crate::database::Database;
use crate::task::Task;

verus! {

/// The escape of one character: `"` and `\` get a backslash, all else
/// stands as it is.
pub open spec fn esc_char(c: char) -> Seq<char> {
    if c == '"' {
        seq!['\\', '"']
    } else if c == '\\' {
        seq!['\\', '\\']
    } else {
        seq![c]
    }
}

/// The escape of a text, character by character.
pub open spec fn esc(s: Seq<char>) -> Seq<char>
    decreases s.len(),
{
    if s.len() == 0 {
        Seq::empty()
    } else {
        esc_char(s[0]) + esc(s.drop_first())
    }
}

/// A text escaped and wrapped in double quotes.
pub open spec fn quoted(s: Seq<char>) -> Seq<char> {
    seq!['"'] + esc(s) + seq!['"']
}

/// The persisted form of one task object.
pub open spec fn render_task(t: Task) -> Seq<char> {
    "{\n            \"desc\": "@ + quoted(t.desc@) + ",\n            \"state\": "@ + crate::dec::spec_dec(
        t.state.spec_code() as nat,
    ) + ",\n            \"createdAt\": "@ + crate::dec::spec_dec(t.created_at as nat)
        + ",\n            \"lastUpdated\": "@ + crate::dec::spec_dec(t.last_updated as nat)
        + "\n        }"@
}

/// The persisted form of one entry: the indented, quoted identifier and
/// its task object.
pub open spec fn render_entry(e: (String, Task)) -> Seq<char> {
    "        "@ + quoted(e.0@) + ": "@ + render_task(e.1)
}

/// The persisted entries, separated by commas, in store order.
pub open spec fn render_entries(s: Seq<(String, Task)>) -> Seq<char>
    decreases s.len(),
{
    if s.len() <= 1 {
        if s.len() == 0 {
            Seq::empty()
        } else {
            render_entry(s[0])
        }
    } else {
        render_entry(s[0]) + ",\n"@ + render_entries(s.drop_first())
    }
}

/// The persisted object that holds the entries.
pub open spec fn render_tasks_obj(s: Seq<(String, Task)>) -> Seq<char> {
    if s.len() == 0 {
        "{}"@
    } else {
        "{\n"@ + render_entries(s) + "\n    }"@
    }
}

/// The whole persisted text of a store.
pub open spec fn spec_render(db: Database) -> Seq<char> {
    "{\n    \"tasks\": "@ + render_tasks_obj(db.entries()) + ",\n    \"ptr\": "@
        + crate::dec::spec_dec(db.ptr as nat) + "\n}"@
}

/// The store a persisted text denotes, if it is the persisted form of
/// some well-formed store.
pub open spec fn spec_parse(s: Seq<char>) -> Option<Database> {
    if exists|db: Database| db.wf() && spec_render(db) == s {
        Some(choose|db: Database| db.wf() && spec_render(db) == s)
    } else {
        None
    }
}

/// Saving, loading and saving again changes nothing: the persisted form
/// of a well-formed store parses, and whatever store it parses to
/// persists to the identical text.
pub proof fn lemma_round_trip(db: Database)
    requires
        db.wf(),
    ensures
        spec_parse(spec_render(db)) matches Some(db2) && db2.wf() && spec_render(db2)
            == spec_render(db),
{
    assert(db.wf() && spec_render(db) == spec_render(db));
}

/// Escaping distributes over concatenation.
pub proof fn lemma_esc_concat(a: Seq<char>, b: Seq<char>)
    ensures
        esc(a + b) == esc(a) + esc(b),
    decreases a.len(),
{
    if a.len() == 0 {
        assert(a + b =~= b);
        assert(esc(a) + esc(b) =~= esc(b));
    } else {
        assert((a + b).drop_first() =~= a.drop_first() + b);
        assert((a + b)[0] == a[0]);
        lemma_esc_concat(a.drop_first(), b);
        assert(esc_char(a[0]) + (esc(a.drop_first()) + esc(b)) =~= (esc_char(a[0]) + esc(
            a.drop_first(),
        )) + esc(b));
        assert(esc(a + b) == esc_char(a[0]) + esc((a + b).drop_first()));
    }
}

/// How the escape of a text splits at position `k` of the unescaped text.
pub proof fn lemma_esc_split(x: Seq<char>, k: int)
    requires
        0 <= k < x.len(),
    ensures
        esc(x.take(k + 1)) == esc(x.take(k)) + esc_char(x[k]),
        esc(x.take(k)).len() + esc_char(x[k]).len() <= esc(x).len(),
        forall|m: int|
            0 <= m < esc_char(x[k]).len() ==> esc(x)[esc(x.take(k)).len() + m] == esc_char(x[k])[m],
{
    assert(x.take(k + 1) =~= x.take(k) + seq![x[k]]);
    lemma_esc_concat(x.take(k), seq![x[k]]);
    assert(seq![x[k]].drop_first() =~= Seq::<char>::empty());
    assert(esc(Seq::<char>::empty()) =~= Seq::<char>::empty());
    assert(esc(seq![x[k]]) == esc_char(x[k]) + esc(seq![x[k]].drop_first()));
    assert(esc(seq![x[k]]) =~= esc_char(x[k]));
    assert(x =~= x.take(k + 1) + x.skip(k + 1));
    lemma_esc_concat(x.take(k + 1), x.skip(k + 1));
    assert(esc(x) == esc(x.take(k + 1)) + esc(x.skip(k + 1)));
    assert forall|m: int| 0 <= m < esc_char(x[k]).len() implies esc(x)[esc(x.take(k)).len() + m]
        == esc_char(x[k])[m] by {
        assert(esc(x.take(k + 1))[esc(x.take(k)).len() + m] == esc_char(x[k])[m]);
        assert(esc(x)[esc(x.take(k)).len() + m] == esc(x.take(k + 1))[esc(x.take(k)).len() + m]);
    }
}

/// The escape of a whole text is the escape of any full prefix.
pub proof fn lemma_esc_whole(x: Seq<char>)
    ensures
        esc(x.take(x.len() as int)) == esc(x),
{
    assert(x.take(x.len() as int) =~= x);
}

/// Appending an entry to a non-empty run of entries appends its text
/// after a separator.
pub proof fn lemma_entries_snoc(s: Seq<(String, Task)>, e: (String, Task))
    requires
        s.len() >= 1,
    ensures
        render_entries(s.push(e)) == render_entries(s) + ",\n"@ + render_entry(e),
    decreases s.len(),
{
    if s.len() == 1 {
        assert(s.push(e)[0] == s[0]);
        assert(s.push(e).drop_first() =~= seq![e]);
        assert(render_entries(seq![e]) == render_entry(e));
        assert(render_entries(s.push(e)) == render_entry(s[0]) + ",\n"@ + render_entry(e));
        assert(render_entries(s) == render_entry(s[0]));
    } else {
        assert(s.push(e).drop_first() =~= s.drop_first().push(e));
        lemma_entries_snoc(s.drop_first(), e);
        assert(s.push(e)[0] == s[0]);
        assert(render_entries(s.push(e)) == render_entry(s[0]) + ",\n"@ + render_entries(
            s.drop_first().push(e),
        ));
        assert(render_entry(s[0]) + ",\n"@ + (render_entries(s.drop_first()) + ",\n"@
            + render_entry(e)) =~= (render_entry(s[0]) + ",\n"@ + render_entries(s.drop_first()))
            + ",\n"@ + render_entry(e));
    }
}

/// The text `pat` stands in `s` at position `pos`.
pub open spec fn at(s: Seq<char>, pos: int, pat: Seq<char>) -> bool {
    &&& 0 <= pos
    &&& pos + pat.len() <= s.len()
    &&& s.subrange(pos, pos + pat.len()) == pat
}

/// Where a quoted text stands, its pieces stand: the opening quote, the
/// escaped characters, the closing quote.
proof fn lemma_quoted_at(s: Seq<char>, pos: int, x: Seq<char>)
    requires
        at(s, pos, quoted(x)),
    ensures
        s[pos] == '"',
        forall|m: int| 0 <= m < esc(x).len() ==> s[pos + 1 + m] == esc(x)[m],
        s[pos + 1 + esc(x).len()] == '"',
{
    let q = quoted(x);
    assert(q[0] == '"');
    assert(q[1 + esc(x).len() as int] == '"');
    assert(s[pos] == s.subrange(pos, pos + q.len())[0]);
    assert(s[pos + 1 + esc(x).len()] == s.subrange(pos, pos + q.len())[1 + esc(x).len() as int]);
    assert forall|m: int| 0 <= m < esc(x).len() implies s[pos + 1 + m] == esc(x)[m] by {
        assert(q[1 + m] == esc(x)[m]);
        assert(s[pos + 1 + m] == s.subrange(pos, pos + q.len())[1 + m]);
    }
}

/// `lit` stands in `inp` at `pos`, or nothing is consumed: the position
/// just past it on success.
fn expect(inp: &Vec<char>, pos: usize, lit: &str) -> (r: Option<usize>)
    requires
        pos <= inp@.len(),
    ensures
        match r {
            Some(p) => p as int == pos + lit@.len() && at(inp@, pos as int, lit@),
            None => !at(inp@, pos as int, lit@),
        },
{
    let pat = string_to_chars(lit);
    let n = pat.len();
    if n > inp.len() - pos {
        return None;
    }
    let mut j: usize = 0;
    while j < n
        invariant
            pos + n <= inp@.len(),
            inp@.len() <= usize::MAX,
            n == lit@.len(),
            pat@ == lit@,
            j <= n,
            forall|m: int| 0 <= m < j ==> inp@[pos + m] == lit@[m],
        decreases n - j,
    {
        if inp[pos + j] != pat[j] {
            proof {
                if at(inp@, pos as int, lit@) {
                    assert(inp@.subrange(pos as int, pos + lit@.len())[j as int] == lit@[j as int]);
                }
            }
            return None;
        }
        j = j + 1;
    }
    proof {
        assert(inp@.subrange(pos as int, pos + lit@.len()) =~= lit@);
    }
    Some(pos + n)
}

/// Reads a quoted, escaped text: the characters it denotes and the
/// position just past the closing quote. Only `\"` and `\\` are
/// accepted escapes; a stray backslash or a missing quote is a failure.
/// Where the quoted form of some text `x` stands at `pos`, the read
/// succeeds and yields exactly `x`.
fn parse_string(inp: &Vec<char>, pos: usize, Ghost(w): Ghost<Option<Seq<char>>>) -> (r: Option<
    (Vec<char>, usize),
>)
    requires
        pos <= inp@.len(),
    ensures
        (match r {
            Some((out, p)) => pos < p <= inp@.len() && inp@.subrange(pos as int, p as int)
                == quoted(out@),
            None => true,
        }),
        (match w {
            Some(x) => at(inp@, pos as int, quoted(x)),
            None => false,
        }) ==> (match r {
            Some((out, p)) => out@ == w.unwrap() && p as int == pos + quoted(w.unwrap()).len(),
            None => false,
        }),
{
    let ghost wit_on = match w {
        Some(x) => at(inp@, pos as int, quoted(x)),
        None => false,
    };
    proof {
        if wit_on {
            lemma_quoted_at(inp@, pos as int, w.unwrap());
        }
    }
    if pos >= inp.len() {
        proof {
            if wit_on {
                assert(pos + quoted(w.unwrap()).len() <= inp@.len());
            }
        }
        return None;
    }
    if inp[pos] != '"' {
        return None;
    }
    let mut out: Vec<char> = Vec::new();
    let mut p: usize = pos + 1;
    proof {
        assert(inp@.subrange(pos + 1 as int, p as int) =~= Seq::<char>::empty());
        assert(esc(out@) =~= Seq::<char>::empty());
    }
    loop
        invariant
            pos < p <= inp@.len(),
            inp@[pos as int] == '"',
            inp@.subrange(pos + 1 as int, p as int) == esc(out@),
            wit_on == (match w {
                Some(x) => at(inp@, pos as int, quoted(x)),
                None => false,
            }),
            wit_on ==> out@.len() <= w.unwrap().len() && out@ == w.unwrap().take(
                out@.len() as int,
            ),
        decreases inp@.len() - p,
    {
        let ghost k = out@.len() as int;
        proof {
            if wit_on {
                let x = w.unwrap();
                lemma_quoted_at(inp@, pos as int, x);
                assert(x.take(k) + x.skip(k) =~= x);
                lemma_esc_concat(x.take(k), x.skip(k));
                assert(esc(x.take(k)).len() <= esc(x).len());
                if k < x.len() {
                    lemma_esc_split(x, k);
                } else {
                    lemma_esc_whole(x);
                }
            }
        }
        if p >= inp.len() {
            proof {
                if wit_on {
                    let x = w.unwrap();
                    assert(p - pos - 1 == esc(x.take(k)).len());
                    assert(pos + 1 + esc(x).len() < inp@.len());
                    assert(false);
                }
            }
            return None;
        }
        let c = inp[p];
        if c == '"' {
            proof {
                if wit_on {
                    let x = w.unwrap();
                    if k < x.len() {
                        assert(inp@[p as int] == esc(x)[esc(x.take(k)).len() as int]);
                        assert(esc(x)[esc(x.take(k)).len() as int] == esc_char(x[k])[0]);
                        assert(esc_char(x[k])[0] != '"');
                        assert(false);
                    }
                    assert(out@ == x.take(x.len() as int));
                    assert(x.take(x.len() as int) =~= x);
                }
                assert(inp@.subrange(pos as int, p + 1 as int) =~= quoted(out@)) by {
                    assert(inp@[pos as int] == '"');
                    assert(inp@[p as int] == '"');
                    assert forall|m: int| 0 <= m < esc(out@).len() implies inp@[pos + 1 + m]
                        == esc(out@)[m] by {
                        assert(inp@.subrange(pos + 1 as int, p as int)[m] == esc(out@)[m]);
                    }
                }
            }
            return Some((out, p + 1));
        }
        if c == '\\' {
            proof {
                if wit_on {
                    let x = w.unwrap();
                    if k >= x.len() {
                        assert(inp@[pos + 1 + esc(x).len()] == '"');
                        assert(p as int == pos + 1 + esc(x).len());
                        assert(false);
                    }
                    assert(inp@[p as int] == esc_char(x[k])[0]);
                    assert(x[k] == '"' || x[k] == '\\');
                    assert(esc_char(x[k]).len() == 2);
                    assert(p + 1 < pos + 1 + esc(x).len() + 1);
                    assert(inp@[p + 1 as int] == esc(x)[esc(x.take(k)).len() + 1int]);
                    assert(inp@[p + 1 as int] == x[k]);
                }
            }
            if p + 1 >= inp.len() {
                proof {
                    if wit_on {
                        assert(pos + 1 + esc(w.unwrap()).len() < inp@.len());
                        assert(false);
                    }
                }
                return None;
            }
            let c2 = inp[p + 1];
            if c2 == '"' || c2 == '\\' {
                let ghost prev = out@;
                out.push(c2);
                proof {
                    assert(prev.push(c2) =~= out@);
                    lemma_esc_concat(prev, seq![c2]);
                    assert(prev + seq![c2] =~= out@);
                    assert(seq![c2].drop_first() =~= Seq::<char>::empty());
                    assert(esc(Seq::<char>::empty()) =~= Seq::<char>::empty());
                    assert(esc(seq![c2]) =~= esc_char(c2));
                    assert(esc_char(c2) =~= seq!['\\', c2]);
                    assert(inp@.subrange(pos + 1 as int, p + 2 as int) =~= esc(prev).push(
                        '\\',
                    ).push(c2));
                    assert(inp@.subrange(pos + 1 as int, p + 2 as int) =~= esc(out@));
                    if wit_on {
                        let x = w.unwrap();
                        assert(x[k] == c2);
                        assert(out@ =~= x.take(k + 1));
                    }
                }
                p = p + 2;
            } else {
                proof {
                    if wit_on {
                        assert(false);
                    }
                }
                return None;
            }
        } else {
            proof {
                if wit_on {
                    let x = w.unwrap();
                    if k >= x.len() {
                        assert(p as int == pos + 1 + esc(x).len());
                        assert(inp@[p as int] == '"');
                        assert(false);
                    }
                    assert(inp@[p as int] == esc_char(x[k])[0]);
                    if x[k] == '"' || x[k] == '\\' {
                        assert(esc_char(x[k])[0] == '\\');
                        assert(false);
                    }
                    assert(x[k] == c);
                }
            }
            let ghost prev = out@;
            out.push(c);
            proof {
                assert(prev.push(c) =~= out@);
                lemma_esc_concat(prev, seq![c]);
                assert(prev + seq![c] =~= out@);
                assert(seq![c].drop_first() =~= Seq::<char>::empty());
                assert(esc(Seq::<char>::empty()) =~= Seq::<char>::empty());
                assert(esc(seq![c]) =~= esc_char(c));
                assert(esc_char(c) =~= seq![c]);
                assert(inp@.subrange(pos + 1 as int, p + 1 as int) =~= esc(prev).push(c));
                assert(inp@.subrange(pos + 1 as int, p + 1 as int) =~= esc(out@));
                if wit_on {
                    let x = w.unwrap();
                    assert(out@ =~= x.take(k + 1));
                }
            }
            p = p + 1;
        }
    }
}

/// Where a concatenation stands, each part stands.
proof fn lemma_at_split(s: Seq<char>, pos: int, a: Seq<char>, b: Seq<char>)
    requires
        at(s, pos, a + b),
    ensures
        at(s, pos, a),
        at(s, pos + a.len(), b),
{
    let ab = a + b;
    assert forall|m: int| 0 <= m < a.len() implies s[pos + m] == a[m] by {
        assert(s.subrange(pos, pos + ab.len())[m] == ab[m]);
    }
    assert(s.subrange(pos, pos + a.len()) =~= a);
    assert forall|m: int| 0 <= m < b.len() implies s[pos + a.len() + m] == b[m] by {
        assert(s.subrange(pos, pos + ab.len())[a.len() + m] == ab[a.len() + m]);
    }
    assert(s.subrange(pos + a.len(), pos + a.len() + b.len()) =~= b);
}

/// Where two adjacent parts stand, their concatenation stands.
proof fn lemma_at_join(s: Seq<char>, pos: int, a: Seq<char>, b: Seq<char>)
    requires
        at(s, pos, a),
        at(s, pos + a.len(), b),
    ensures
        at(s, pos, a + b),
{
    assert forall|m: int| 0 <= m < (a + b).len() implies s[pos + m] == (a + b)[m] by {
        if m < a.len() {
            assert(s.subrange(pos, pos + a.len())[m] == a[m]);
        } else {
            assert(s.subrange(pos + a.len(), pos + a.len() + b.len())[m - a.len()] == b[m
                - a.len()]);
        }
    }
    assert(s.subrange(pos, pos + (a + b).len()) =~= a + b);
}

/// Identifiers non-empty and every task well-formed.
pub open spec fn entry_facts(s: Seq<(String, Task)>) -> bool {
    forall|i: int| 0 <= i < s.len() ==> (#[trigger] s[i]).0@.len() > 0 && s[i].1.wf()
}

/// Reads one task object: its fields and the position just past its
/// closing brace. Only the exact persisted form is accepted, including
/// an update timestamp no earlier than the creation. Where the
/// persisted form of a well-formed task stands at `pos`, the read
/// succeeds and ends exactly past it.
fn parse_task(inp: &Vec<char>, pos: usize, Ghost(wt): Ghost<Option<Task>>) -> (r: Option<
    (Task, usize),
>)
    requires
        pos <= inp@.len(),
    ensures
        (match r {
            Some((t, p)) => pos < p <= inp@.len() && inp@.subrange(pos as int, p as int)
                == render_task(t) && t.wf(),
            None => true,
        }),
        (match wt {
            Some(t0) => t0.wf() && at(inp@, pos as int, render_task(t0)),
            None => false,
        }) ==> (match r {
            Some((t, p)) => t.desc@ == wt.unwrap().desc@ && t.state == wt.unwrap().state
                && t.created_at == wt.unwrap().created_at && t.last_updated
                == wt.unwrap().last_updated && p as int == pos + render_task(wt.unwrap()).len(),
            None => false,
        }),
{
    let ghost q1 = "{\n            \"desc\": "@;
    let ghost q2 = ",\n            \"state\": "@;
    let ghost q3 = ",\n            \"createdAt\": "@;
    let ghost q4 = ",\n            \"lastUpdated\": "@;
    let ghost q5 = "\n        }"@;
    let ghost wit_on = (match wt {
        Some(t0) => t0.wf() && at(inp@, pos as int, render_task(t0)),
        None => false,
    });
    proof {
        reveal_strlit(",\n            \"state\": ");
        reveal_strlit(",\n            \"createdAt\": ");
        reveal_strlit(",\n            \"lastUpdated\": ");
        reveal_strlit("\n        }");
        if wit_on {
            let t0 = wt.unwrap();
            let d1 = crate::dec::spec_dec(t0.state.spec_code() as nat);
            let d2 = crate::dec::spec_dec(t0.created_at as nat);
            let d3 = crate::dec::spec_dec(t0.last_updated as nat);
            let r7 = d3 + q5;
            let r6 = q4 + r7;
            let r5 = d2 + r6;
            let r4 = q3 + r5;
            let r3 = d1 + r4;
            let r2 = q2 + r3;
            let r1 = quoted(t0.desc@) + r2;
            assert(render_task(t0) =~= q1 + r1);
            let a1 = pos + q1.len();
            lemma_at_split(inp@, pos as int, q1, r1);
            lemma_at_split(inp@, a1, quoted(t0.desc@), r2);
            let a2 = a1 + quoted(t0.desc@).len();
            lemma_at_split(inp@, a2, q2, r3);
            let a3 = a2 + q2.len();
            lemma_at_split(inp@, a3, d1, r4);
            let a4 = a3 + d1.len();
            lemma_at_split(inp@, a4, q3, r5);
            let a5 = a4 + q3.len();
            lemma_at_split(inp@, a5, d2, r6);
            let a6 = a5 + d2.len();
            lemma_at_split(inp@, a6, q4, r7);
            let a7 = a6 + q4.len();
            lemma_at_split(inp@, a7, d3, q5);
        }
    }
    let p1 = match expect(inp, pos, "{\n            \"desc\": ") {
        Some(p) => p,
        None => {
            proof {
                if wit_on {
                    assert(false);
                }
            }
            return None;
        },
    };
    let ghost wdesc = (match wt {
        Some(t0) => Some(t0.desc@),
        None => None::<Seq<char>>,
    });
    let (desc_chars, p2) = match parse_string(inp, p1, Ghost(wdesc)) {
        Some(x) => x,
        None => {
            proof {
                if wit_on {
                    assert(false);
                }
            }
            return None;
        },
    };
    let p3 = match expect(inp, p2, ",\n            \"state\": ") {
        Some(p) => p,
        None => {
            proof {
                if wit_on {
                    assert(false);
                }
            }
            return None;
        },
    };
    proof {
        if wit_on {
            let t0 = wt.unwrap();
            // the numeral of the state code stands at p3, ended by a comma
            let r5 = crate::dec::spec_dec(t0.created_at as nat) + (q4 + (crate::dec::spec_dec(
                t0.last_updated as nat,
            ) + q5));
            let r4 = q3 + r5;
            let d = crate::dec::spec_dec(t0.state.spec_code() as nat);
            assert(at(inp@, p3 as int, d));
            assert(at(inp@, p3 + d.len(), r4));
            assert(inp@[p3 + d.len()] == q3[0]) by {
                assert(inp@.subrange(p3 + d.len(), p3 + d.len() + r4.len())[0] == r4[0]);
            }
            assert(!crate::dec::is_digit(','));
            assert(crate::dec::num_at(inp@, p3 as int, t0.state.spec_code() as u64));
        }
    }
    let (mstate, p4) = match crate::dec::parse_u64(inp, p3) {
        Some(x) => x,
        None => {
            proof {
                if wit_on {
                    assert(false);
                }
            }
            return None;
        },
    };
    if mstate > 2 {
        proof {
            if wit_on {
                assert(false);
            }
        }
        return None;
    }
    let state = crate::task::TaskState::from_code(mstate as u8);
    let p5 = match expect(inp, p4, ",\n            \"createdAt\": ") {
        Some(p) => p,
        None => {
            proof {
                if wit_on {
                    assert(false);
                }
            }
            return None;
        },
    };
    proof {
        if wit_on {
            let t0 = wt.unwrap();
            let r6 = q4 + (crate::dec::spec_dec(t0.last_updated as nat) + q5);
            let d = crate::dec::spec_dec(t0.created_at as nat);
            lemma_at_split(inp@, p5 as int, d, r6);
            assert(inp@[p5 + d.len()] == q4[0]) by {
                assert(inp@.subrange(p5 + d.len(), p5 + d.len() + r6.len())[0] == r6[0]);
            }
            assert(!crate::dec::is_digit(','));
            assert(crate::dec::num_at(inp@, p5 as int, t0.created_at));
        }
    }
    let (mcreated, p6) = match crate::dec::parse_u64(inp, p5) {
        Some(x) => x,
        None => {
            proof {
                if wit_on {
                    assert(false);
                }
            }
            return None;
        },
    };
    let p7 = match expect(inp, p6, ",\n            \"lastUpdated\": ") {
        Some(p) => p,
        None => {
            proof {
                if wit_on {
                    assert(false);
                }
            }
            return None;
        },
    };
    proof {
        if wit_on {
            let t0 = wt.unwrap();
            let d = crate::dec::spec_dec(t0.last_updated as nat);
            lemma_at_split(inp@, p7 as int, d, q5);
            assert(inp@[p7 + d.len()] == q5[0]) by {
                assert(inp@.subrange(p7 + d.len(), p7 + d.len() + q5.len())[0] == q5[0]);
            }
            assert(!crate::dec::is_digit('\n'));
            assert(crate::dec::num_at(inp@, p7 as int, t0.last_updated));
        }
    }
    let (mlast, p8) = match crate::dec::parse_u64(inp, p7) {
        Some(x) => x,
        None => {
            proof {
                if wit_on {
                    assert(false);
                }
            }
            return None;
        },
    };
    if mcreated > mlast {
        proof {
            if wit_on {
                assert(false);
            }
        }
        return None;
    }
    let p9 = match expect(inp, p8, "\n        }") {
        Some(p) => p,
        None => {
            proof {
                if wit_on {
                    assert(false);
                }
            }
            return None;
        },
    };
    let desc = chars_to_string(&desc_chars);
    let t = Task { desc, state, created_at: mcreated, last_updated: mlast };
    proof {
        assert((mstate as u8) as nat == mstate as nat);
        assert(at(inp@, pos as int, q1));
        assert(at(inp@, p1 as int, quoted(desc_chars@))) by {
            assert(inp@.subrange(p1 as int, p2 as int) == quoted(desc_chars@));
        }
        lemma_at_join(inp@, pos as int, q1, quoted(t.desc@));
        lemma_at_join(inp@, pos as int, q1 + quoted(t.desc@), q2);
        let d1 = crate::dec::spec_dec(t.state.spec_code() as nat);
        assert(at(inp@, p3 as int, d1)) by {
            assert(inp@.subrange(p3 as int, p4 as int) == d1);
        }
        lemma_at_join(inp@, pos as int, q1 + quoted(t.desc@) + q2, d1);
        lemma_at_join(inp@, pos as int, q1 + quoted(t.desc@) + q2 + d1, q3);
        let d2 = crate::dec::spec_dec(t.created_at as nat);
        assert(at(inp@, p5 as int, d2)) by {
            assert(inp@.subrange(p5 as int, p6 as int) == d2);
        }
        lemma_at_join(inp@, pos as int, q1 + quoted(t.desc@) + q2 + d1 + q3, d2);
        lemma_at_join(inp@, pos as int, q1 + quoted(t.desc@) + q2 + d1 + q3 + d2, q4);
        let d3 = crate::dec::spec_dec(t.last_updated as nat);
        assert(at(inp@, p7 as int, d3)) by {
            assert(inp@.subrange(p7 as int, p8 as int) == d3);
        }
        lemma_at_join(inp@, pos as int, q1 + quoted(t.desc@) + q2 + d1 + q3 + d2 + q4, d3);
        lemma_at_join(inp@, pos as int, q1 + quoted(t.desc@) + q2 + d1 + q3 + d2 + q4 + d3, q5);
        assert(render_task(t) =~= q1 + quoted(t.desc@) + q2 + d1 + q3 + d2 + q4 + d3 + q5);
        assert(inp@.subrange(pos as int, p9 as int) == render_task(t));
        if wit_on {
            let t0 = wt.unwrap();
            assert(t.desc@ == t0.desc@ && t.state == t0.state && t.created_at == t0.created_at
                && t.last_updated == t0.last_updated);
            assert(render_task(t0) =~= q1 + quoted(t0.desc@) + q2 + d1 + q3 + d2 + q4 + d3 + q5);
            assert(p9 as int == pos + render_task(t0).len());
        }
    }
    Some((t, p9))
}

/// Reads one entry: the indented, quoted identifier and its task.
/// An empty identifier is a failure. Where the persisted form of an
/// entry with a non-empty identifier and a well-formed task stands at
/// `pos`, the read succeeds and ends exactly past it.
fn parse_entry(inp: &Vec<char>, pos: usize, Ghost(we): Ghost<Option<(String, Task)>>) -> (r: Option<
    (String, Task, usize),
>)
    requires
        pos <= inp@.len(),
    ensures
        (match r {
            Some((id, t, p)) => pos < p <= inp@.len() && inp@.subrange(pos as int, p as int)
                == render_entry((id, t)) && id@.len() > 0 && t.wf(),
            None => true,
        }),
        (match we {
            Some(e0) => e0.0@.len() > 0 && e0.1.wf() && at(inp@, pos as int, render_entry(e0)),
            None => false,
        }) ==> (match r {
            Some((id, t, p)) => id@ == we.unwrap().0@ && p as int == pos + render_entry(
                we.unwrap(),
            ).len(),
            None => false,
        }),
{
    let ghost q0 = "        "@;
    let ghost qc = ": "@;
    let ghost wit_on = (match we {
        Some(e0) => e0.0@.len() > 0 && e0.1.wf() && at(inp@, pos as int, render_entry(e0)),
        None => false,
    });
    proof {
        if wit_on {
            let e0 = we.unwrap();
            let r1 = quoted(e0.0@) + (qc + render_task(e0.1));
            assert(render_entry(e0) =~= q0 + r1);
            lemma_at_split(inp@, pos as int, q0, r1);
            lemma_at_split(inp@, pos + q0.len(), quoted(e0.0@), qc + render_task(e0.1));
            lemma_at_split(inp@, pos + q0.len() + quoted(e0.0@).len(), qc, render_task(e0.1));
        }
    }
    let p1 = match expect(inp, pos, "        ") {
        Some(p) => p,
        None => {
            proof {
                if wit_on {
                    assert(false);
                }
            }
            return None;
        },
    };
    let ghost wid = (match we {
        Some(e0) => Some(e0.0@),
        None => None::<Seq<char>>,
    });
    let (id_chars, p2) = match parse_string(inp, p1, Ghost(wid)) {
        Some(x) => x,
        None => {
            proof {
                if wit_on {
                    assert(false);
                }
            }
            return None;
        },
    };
    if id_chars.len() == 0 {
        proof {
            if wit_on {
                assert(false);
            }
        }
        return None;
    }
    let p3 = match expect(inp, p2, ": ") {
        Some(p) => p,
        None => {
            proof {
                if wit_on {
                    assert(false);
                }
            }
            return None;
        },
    };
    let ghost wtask = (match we {
        Some(e0) => Some(e0.1),
        None => None::<Task>,
    });
    let (t, p4) = match parse_task(inp, p3, Ghost(wtask)) {
        Some(x) => x,
        None => {
            proof {
                if wit_on {
                    assert(false);
                }
            }
            return None;
        },
    };
    let id = chars_to_string(&id_chars);
    proof {
        assert(at(inp@, pos as int, q0));
        assert(at(inp@, p1 as int, quoted(id@))) by {
            assert(inp@.subrange(p1 as int, p2 as int) == quoted(id_chars@));
        }
        lemma_at_join(inp@, pos as int, q0, quoted(id@));
        lemma_at_join(inp@, pos as int, q0 + quoted(id@), qc);
        assert(at(inp@, p3 as int, render_task(t))) by {
            assert(inp@.subrange(p3 as int, p4 as int) == render_task(t));
        }
        lemma_at_join(inp@, pos as int, q0 + quoted(id@) + qc, render_task(t));
        assert(render_entry((id, t)) =~= q0 + quoted(id@) + qc + render_task(t));
        assert(inp@.subrange(pos as int, p4 as int) == render_entry((id, t)));
        if wit_on {
            let e0 = we.unwrap();
            assert(render_entry(e0) =~= q0 + quoted(e0.0@) + qc + render_task(e0.1));
            assert(p4 as int == pos + render_entry(e0).len());
        }
    }
    Some((id, t, p4))
}

/// Reads a non-empty, comma-separated run of entries. Where such a run
/// stands at `pos`, followed by the closing of the tasks object, the
/// read succeeds, ends exactly past the run, and yields entries with
/// the same identifiers in the same order.
fn parse_entries(inp: &Vec<char>, pos: usize, Ghost(wes): Ghost<Option<Seq<(String, Task)>>>) -> (r:
    Option<(Vec<(String, Task)>, usize)>)
    requires
        pos <= inp@.len(),
    ensures
        (match r {
            Some((v, p)) => v@.len() >= 1 && pos < p <= inp@.len() && inp@.subrange(
                pos as int,
                p as int,
            ) == render_entries(v@) && entry_facts(v@),
            None => true,
        }),
        (match wes {
            Some(es) => es.len() >= 1 && entry_facts(es) && at(
                inp@,
                pos as int,
                render_entries(es) + "\n    }"@,
            ),
            None => false,
        }) ==> (match r {
            Some((v, p)) => p as int == pos + render_entries(wes.unwrap()).len() && v@.len()
                == wes.unwrap().len() && (forall|i: int|
                0 <= i < v@.len() ==> (#[trigger] v@[i]).0@ == wes.unwrap()[i].0@),
            None => false,
        }),
    decreases inp@.len() - pos,
{
    let ghost closer = "\n    }"@;
    let ghost wit_on = (match wes {
        Some(es) => es.len() >= 1 && entry_facts(es) && at(
            inp@,
            pos as int,
            render_entries(es) + closer,
        ),
        None => false,
    });
    proof {
        reveal_strlit(",\n");
        reveal_strlit("\n    }");
        if wit_on {
            let es = wes.unwrap();
            if es.len() == 1 {
                assert(render_entries(es) == render_entry(es[0]));
                lemma_at_split(inp@, pos as int, render_entry(es[0]), closer);
            } else {
                let rest = ",\n"@ + (render_entries(es.drop_first()) + closer);
                assert(render_entries(es) + closer =~= render_entry(es[0]) + rest);
                lemma_at_split(inp@, pos as int, render_entry(es[0]), rest);
                lemma_at_split(
                    inp@,
                    pos + render_entry(es[0]).len(),
                    ",\n"@,
                    render_entries(es.drop_first()) + closer,
                );
            }
        }
    }
    let ghost wfirst = (match wes {
        Some(es) => if es.len() >= 1 {
            Some(es[0])
        } else {
            None::<(String, Task)>
        },
        None => None::<(String, Task)>,
    });
    let (id, t, p1) = match parse_entry(inp, pos, Ghost(wfirst)) {
        Some(x) => x,
        None => {
            proof {
                if wit_on {
                    assert(false);
                }
            }
            return None;
        },
    };
    let more = p1 < inp.len() && inp[p1] == ',';
    proof {
        if wit_on {
            let es = wes.unwrap();
            if es.len() == 1 {
                assert(inp@[p1 as int] == closer[0]) by {
                    assert(inp@.subrange(p1 as int, p1 + closer.len())[0] == closer[0]);
                }
                assert(!more);
            } else {
                assert(inp@.subrange(p1 as int, p1 + 2)[0] == ",\n"@[0]);
                assert(inp@[p1 as int] == ',');
                assert(more);
            }
        }
    }
    if more {
        let p2 = match expect(inp, p1, ",\n") {
            Some(p) => p,
            None => {
                proof {
                    if wit_on {
                        assert(false);
                    }
                }
                return None;
            },
        };
        let ghost wtail = (match wes {
            Some(es) => if es.len() >= 2 {
                Some(es.drop_first())
            } else {
                None::<Seq<(String, Task)>>
            },
            None => None::<Seq<(String, Task)>>,
        });
        proof {
            if wit_on {
                let es = wes.unwrap();
                assert(es.len() >= 2) by {
                    if es.len() == 1 {
                        assert(!more);
                    }
                }
                assert(at(inp@, p2 as int, render_entries(es.drop_first()) + closer));
                assert(entry_facts(es.drop_first())) by {
                    assert(forall|i: int|
                        0 <= i < es.drop_first().len() ==> es.drop_first()[i] == es[i + 1]);
                }
            }
        }
        let rec = match parse_entries(inp, p2, Ghost(wtail)) {
            Some(x) => x,
            None => {
                proof {
                    if wit_on {
                        assert(false);
                    }
                }
                return None;
            },
        };
        let (mut v, p3) = rec;
        let ghost vrec = v@;
        v.insert(0, (id, t));
        proof {
            assert(v@ =~= seq![(id, t)] + vrec);
            assert(v@[0] == (id, t));
            assert(v@.drop_first() =~= vrec);
            assert(render_entries(v@) == render_entry((id, t)) + ",\n"@ + render_entries(vrec));
            assert(at(inp@, pos as int, render_entry((id, t)))) by {
                assert(inp@.subrange(pos as int, p1 as int) == render_entry((id, t)));
            }
            assert(at(inp@, p2 as int, render_entries(vrec))) by {
                assert(inp@.subrange(p2 as int, p3 as int) == render_entries(vrec));
            }
            lemma_at_join(inp@, pos as int, render_entry((id, t)), ",\n"@);
            lemma_at_join(inp@, pos as int, render_entry((id, t)) + ",\n"@, render_entries(vrec));
            assert((render_entry((id, t)) + ",\n"@) + render_entries(vrec) =~= render_entries(v@));
            assert(inp@.subrange(pos as int, p3 as int) == render_entries(v@));
            assert(entry_facts(v@)) by {
                assert(forall|i: int| 1 <= i < v@.len() ==> v@[i] == vrec[i - 1]);
            }
            if wit_on {
                let es = wes.unwrap();
                assert(render_entries(es) =~= render_entry(es[0]) + ",\n"@ + render_entries(
                    es.drop_first(),
                ));
                assert(p3 as int == pos + render_entries(es).len());
                assert forall|i: int| 0 <= i < v@.len() implies (#[trigger] v@[i]).0@ == es[i].0@
                    by {
                    if i == 0 {
                    } else {
                        assert(v@[i] == vrec[i - 1]);
                        assert(es.drop_first()[i - 1] == es[i]);
                    }
                }
            }
        }
        Some((v, p3))
    } else {
        let mut v: Vec<(String, Task)> = Vec::new();
        v.push((id, t));
        proof {
            assert(v@ =~= seq![(id, t)]);
            assert(render_entries(v@) == render_entry((id, t)));
            assert(inp@.subrange(pos as int, p1 as int) == render_entry((id, t)));
            if wit_on {
                let es = wes.unwrap();
                if es.len() >= 2 {
                    assert(more);
                    assert(false);
                }
                assert(p1 as int == pos + render_entries(es).len());
            }
        }
        Some((v, p1))
    }
}

/// No identifier appears twice among the entries.
fn keys_unique(v: &Vec<(String, Task)>) -> (r: bool)
    ensures
        r == crate::database::unique_keys(v@),
{
    let n = v.len();
    let mut i: usize = 0;
    while i < n
        invariant
            n == v@.len(),
            i <= n,
            forall|a: int, b: int|
                0 <= a < b < n && a < i ==> (#[trigger] v@[a]).0@ != (#[trigger] v@[b]).0@,
        decreases n - i,
    {
        let mut j: usize = i + 1;
        while j < n
            invariant
                n == v@.len(),
                i < n,
                i < j <= n,
                forall|b: int| i < b < j ==> (#[trigger] v@[b]).0@ != v@[i as int].0@,
            decreases n - j,
        {
            if v[i].0 == v[j].0 {
                return false;
            }
            j = j + 1;
        }
        i = i + 1;
    }
    true
}

/// A store read back from its persisted text. Exactly the texts that
/// `to_json` produces for some well-formed store are accepted; any
/// other text — other spacing, duplicate or empty identifiers, a state
/// code above 2, an update timestamp before the creation, anything
/// trailing — is malformed and refused.
#[verifier::rlimit(100)]
pub fn from_json(text: &str) -> (r: Result<Database, DeserializationError>)
    ensures
        (match r {
            Ok(db) => db.wf() && spec_render(db) == text@,
            Err(_) => spec_parse(text@) is None,
        }),
{
    let inp = string_to_chars(text);
    let ghost wdb: Option<Database> = if exists|db: Database| db.wf() && spec_render(db) == text@ {
        Some(choose|db: Database| db.wf() && spec_render(db) == text@)
    } else {
        None
    };
    let ghost l1 = "{\n    \"tasks\": "@;
    let ghost l2 = ",\n    \"ptr\": "@;
    let ghost l3 = "\n}"@;
    let ghost wit_on = wdb is Some;
    proof {
        reveal_strlit("{\n    \"tasks\": ");
        reveal_strlit(",\n    \"ptr\": ");
        reveal_strlit("\n}");
        reveal_strlit("{}");
        reveal_strlit("{\n");
        reveal_strlit("\n    }");
        if wit_on {
            let db0 = wdb.unwrap();
            let whole = spec_render(db0);
            let r1 = render_tasks_obj(db0.entries()) + (l2 + (crate::dec::spec_dec(
                db0.ptr as nat,
            ) + l3));
            assert(whole =~= l1 + r1);
            assert(at(inp@, 0, whole)) by {
                assert(inp@.subrange(0, whole.len() as int) =~= whole);
            }
            lemma_at_split(inp@, 0, l1, r1);
            lemma_at_split(
                inp@,
                l1.len() as int,
                render_tasks_obj(db0.entries()),
                l2 + (crate::dec::spec_dec(db0.ptr as nat) + l3),
            );
        }
    }
    let p1 = match expect(&inp, 0, "{\n    \"tasks\": ") {
        Some(p) => p,
        None => {
            proof {
                if wit_on {
                    assert(false);
                }
            }
            return Err(DeserializationError);
        },
    };
    // the tasks object: either empty braces or an indented run of entries
    let empty_obj = inp.len() - p1 >= 2 && inp[p1] == '{' && inp[p1 + 1] == '}';
    proof {
        if wit_on {
            let db0 = wdb.unwrap();
            let obj = render_tasks_obj(db0.entries());
            assert(inp@[p1 as int] == obj[0]) by {
                assert(inp@.subrange(p1 as int, p1 + obj.len())[0] == obj[0]);
            }
            assert(p1 + obj.len() + l2.len() <= inp@.len());
            if db0.entries().len() == 0 {
                assert(inp@[p1 + 1] == obj[1]) by {
                    assert(inp@.subrange(p1 as int, p1 + obj.len())[1] == obj[1]);
                }
                assert(empty_obj);
            } else {
                assert(inp@[p1 + 1] == obj[1]) by {
                    assert(inp@.subrange(p1 as int, p1 + obj.len())[1] == obj[1]);
                }
                assert(obj[1] == '\n') by {
                    assert(obj =~= "{\n"@ + (render_entries(db0.entries()) + "\n    }"@));
                }
                assert(!empty_obj);
            }
        }
    }
    let (entries, p2): (Vec<(String, Task)>, usize) = if empty_obj {
        (Vec::new(), p1 + 2)
    } else {
        let pa = match expect(&inp, p1, "{\n") {
            Some(p) => p,
            None => {
                proof {
                    if wit_on {
                        let db0 = wdb.unwrap();
                        let obj = render_tasks_obj(db0.entries());
                        if db0.entries().len() > 0 {
                            assert(obj =~= "{\n"@ + (render_entries(db0.entries()) + "\n    }"@));
                            lemma_at_split(
                                inp@,
                                p1 as int,
                                "{\n"@,
                                render_entries(db0.entries()) + "\n    }"@,
                            );
                        }
                        assert(false);
                    }
                }
                return Err(DeserializationError);
            },
        };
        let ghost wes = (match wdb {
            Some(db0) => if db0.entries().len() >= 1 {
                Some(db0.entries())
            } else {
                None::<Seq<(String, Task)>>
            },
            None => None::<Seq<(String, Task)>>,
        });
        proof {
            if wit_on {
                let db0 = wdb.unwrap();
                let obj = render_tasks_obj(db0.entries());
                assert(db0.entries().len() >= 1);
                assert(obj =~= "{\n"@ + (render_entries(db0.entries()) + "\n    }"@));
                lemma_at_split(
                    inp@,
                    p1 as int,
                    "{\n"@,
                    render_entries(db0.entries()) + "\n    }"@,
                );
                assert(entry_facts(db0.entries()));
            }
        }
        let (v, pb) = match parse_entries(&inp, pa, Ghost(wes)) {
            Some(x) => x,
            None => {
                proof {
                    if wit_on {
                        assert(false);
                    }
                }
                return Err(DeserializationError);
            },
        };
        let pc = match expect(&inp, pb, "\n    }") {
            Some(p) => p,
            None => {
                proof {
                    if wit_on {
                        let db0 = wdb.unwrap();
                        lemma_at_split(
                            inp@,
                            pa as int,
                            render_entries(db0.entries()),
                            "\n    }"@,
                        );
                        assert(false);
                    }
                }
                return Err(DeserializationError);
            },
        };
        (v, pc)
    };
    proof {
        if wit_on {
            let db0 = wdb.unwrap();
            let obj = render_tasks_obj(db0.entries());
            if db0.entries().len() == 0 {
                assert(p2 as int == p1 + obj.len());
            } else {
                lemma_at_split(inp@, p1 + 2, render_entries(db0.entries()), "\n    }"@);
                assert(p2 as int == p1 + obj.len());
            }
            lemma_at_split(inp@, p2 as int, l2, crate::dec::spec_dec(db0.ptr as nat) + l3);
            assert(at(inp@, p2 as int, l2));
        }
    }
    let p3 = match expect(&inp, p2, ",\n    \"ptr\": ") {
        Some(p) => p,
        None => {
            proof {
                if wit_on {
                    assert(false);
                }
            }
            return Err(DeserializationError);
        },
    };
    proof {
        if wit_on {
            let db0 = wdb.unwrap();
            let d = crate::dec::spec_dec(db0.ptr as nat);
            lemma_at_split(inp@, p2 + l2.len(), d, l3);
            assert(inp@[p3 + d.len()] == l3[0]) by {
                assert(inp@.subrange(p3 + d.len(), p3 + d.len() + l3.len())[0] == l3[0]);
            }
            assert(!crate::dec::is_digit('\n'));
            assert((db0.ptr as u64) as nat == db0.ptr as nat);
            assert(crate::dec::num_at(inp@, p3 as int, db0.ptr as u64));
        }
    }
    let (mptr, p4) = match crate::dec::parse_u64(&inp, p3) {
        Some(x) => x,
        None => {
            proof {
                if wit_on {
                    assert(false);
                }
            }
            return Err(DeserializationError);
        },
    };
    let p5 = match expect(&inp, p4, "\n}") {
        Some(p) => p,
        None => {
            proof {
                if wit_on {
                    assert(false);
                }
            }
            return Err(DeserializationError);
        },
    };
    if p5 != inp.len() {
        proof {
            if wit_on {
                let db0 = wdb.unwrap();
                assert(p5 as int == spec_render(db0).len());
                assert(false);
            }
        }
        return Err(DeserializationError);
    }
    if mptr > usize::MAX as u64 {
        proof {
            if wit_on {
                assert(false);
            }
        }
        return Err(DeserializationError);
    }
    if !keys_unique(&entries) {
        proof {
            if wit_on {
                let db0 = wdb.unwrap();
                if db0.entries().len() == 0 {
                    assert(entries@.len() == 0);
                } else {
                    assert(crate::database::unique_keys(db0.entries()));
                    assert forall|a: int, b: int|
                        0 <= a < b < entries@.len() implies (#[trigger] entries@[a]).0@ != (
                    #[trigger] entries@[b]).0@ by {
                        assert(entries@[a].0@ == db0.entries()[a].0@);
                        assert(entries@[b].0@ == db0.entries()[b].0@);
                    }
                }
                assert(false);
            }
        }
        return Err(DeserializationError);
    }
    let db = Database { tasks: entries, ptr: mptr as usize };
    proof {
        assert(db.wf()) by {
            if db.entries().len() > 0 {
                assert(entry_facts(db.entries()));
            }
        }
        let d = crate::dec::spec_dec(mptr as nat);
        assert((mptr as usize) as nat == mptr as nat);
        assert(at(inp@, 0, l1));
        assert(at(inp@, p1 as int, render_tasks_obj(db.entries()))) by {
            if entries@.len() == 0 {
                assert(render_tasks_obj(db.entries()) == "{}"@);
                assert(inp@.subrange(p1 as int, p1 + 2) =~= "{}"@);
            } else {
                assert(at(inp@, p1 as int, "{\n"@));
                assert(at(inp@, p1 + 2, render_entries(entries@)));
                lemma_at_join(inp@, p1 as int, "{\n"@, render_entries(entries@));
                assert(at(inp@, p1 + 2 + render_entries(entries@).len(), "\n    }"@));
                lemma_at_join(
                    inp@,
                    p1 as int,
                    "{\n"@ + render_entries(entries@),
                    "\n    }"@,
                );
                assert(render_tasks_obj(db.entries()) =~= ("{\n"@ + render_entries(entries@))
                    + "\n    }"@);
            }
        }
        lemma_at_join(inp@, 0, l1, render_tasks_obj(db.entries()));
        lemma_at_join(inp@, 0, l1 + render_tasks_obj(db.entries()), l2);
        assert(at(inp@, p3 as int, d)) by {
            assert(inp@.subrange(p3 as int, p4 as int) == d);
        }
        lemma_at_join(inp@, 0, l1 + render_tasks_obj(db.entries()) + l2, d);
        lemma_at_join(inp@, 0, l1 + render_tasks_obj(db.entries()) + l2 + d, l3);
        assert(spec_render(db) =~= l1 + render_tasks_obj(db.entries()) + l2 + d + l3);
        assert(inp@.subrange(0, p5 as int) == spec_render(db));
        assert(inp@.subrange(0, p5 as int) =~= inp@);
        assert(spec_render(db) == text@);
    }
    Ok(db)
}

/// The persisted text could not be read back as a store.
#[derive(Debug, PartialEq, Eq, Structural)]
pub struct DeserializationError;

/// Appends the characters of `lit` to `out`.
fn push_lit(out: &mut Vec<char>, lit: &str)
    ensures
        final(out)@ == old(out)@ + lit@,
{
    let v = string_to_chars(lit);
    push_chars(out, &v);
}

/// Appends the characters of `v` to `out`.
fn push_chars(out: &mut Vec<char>, v: &Vec<char>)
    ensures
        final(out)@ == old(out)@ + v@,
{
    let n = v.len();
    let mut i: usize = 0;
    while i < n
        invariant
            n == v@.len(),
            i <= n,
            out@ == old(out)@ + v@.take(i as int),
        decreases n - i,
    {
        out.push(v[i]);
        proof {
            assert(old(out)@ + v@.take(i + 1 as int) =~= (old(out)@ + v@.take(i as int)).push(
                v@[i as int],
            ));
        }
        i = i + 1;
    }
    proof {
        assert(v@.take(n as int) =~= v@);
    }
}

/// Appends the quoted, escaped form of `s` to `out`.
fn push_quoted(out: &mut Vec<char>, s: &String)
    ensures
        final(out)@ == old(out)@ + quoted(s@),
{
    let cs = string_to_chars(s.as_str());
    let n = cs.len();
    out.push('"');
    let mut i: usize = 0;
    while i < n
        invariant
            n == cs@.len(),
            cs@ == s@,
            i <= n,
            out@ == old(out)@ + seq!['"'] + esc(s@.take(i as int)),
        decreases n - i,
    {
        let c = cs[i];
        proof {
            lemma_esc_split(s@, i as int);
        }
        if c == '"' {
            out.push('\\');
            out.push('"');
        } else if c == '\\' {
            out.push('\\');
            out.push('\\');
        } else {
            out.push(c);
        }
        proof {
            assert(out@ =~= old(out)@ + seq!['"'] + esc(s@.take(i + 1 as int)));
        }
        i = i + 1;
    }
    out.push('"');
    proof {
        assert(s@.take(n as int) =~= s@);
        assert(out@ =~= old(out)@ + quoted(s@));
    }
}

/// Appends the canonical numeral of `n` to `out`.
fn push_num(out: &mut Vec<char>, n: u64)
    ensures
        final(out)@ == old(out)@ + crate::dec::spec_dec(n as nat),
{
    let v = crate::dec::u64_to_chars(n);
    push_chars(out, &v);
}

/// Appends the persisted form of one task object to `out`.
fn push_task(out: &mut Vec<char>, t: &Task)
    ensures
        final(out)@ == old(out)@ + render_task(*t),
{
    push_lit(out, "{\n            \"desc\": ");
    push_quoted(out, &t.desc);
    push_lit(out, ",\n            \"state\": ");
    push_num(out, t.state.code() as u64);
    push_lit(out, ",\n            \"createdAt\": ");
    push_num(out, t.created_at);
    push_lit(out, ",\n            \"lastUpdated\": ");
    push_num(out, t.last_updated);
    push_lit(out, "\n        }");
    proof {
        assert(out@ =~= old(out)@ + render_task(*t));
    }
}

/// The persisted text of a store: the whole store, pretty-printed,
/// ready to be written out in one piece.
pub fn to_json(db: &Database) -> (s: String)
    ensures
        s@ == spec_render(*db),
{
    let mut out: Vec<char> = Vec::new();
    push_lit(&mut out, "{\n    \"tasks\": ");
    let n = db.tasks.len();
    if n == 0 {
        push_lit(&mut out, "{}");
        proof {
            assert(out@ =~= "{\n    \"tasks\": "@ + render_tasks_obj(db.entries()));
        }
    } else {
        push_lit(&mut out, "{\n");
        let ghost base = out@;
        let mut i: usize = 0;
        while i < n
            invariant
                n == db.tasks@.len(),
                n >= 1,
                i <= n,
                base == "{\n    \"tasks\": "@ + "{\n"@,
                i == 0 ==> out@ == base,
                i >= 1 ==> out@ == base + render_entries(db.tasks@.take(i as int)),
            decreases n - i,
        {
            if i > 0 {
                push_lit(&mut out, ",\n");
            }
            push_lit(&mut out, "        ");
            push_quoted(&mut out, &db.tasks[i].0);
            push_lit(&mut out, ": ");
            push_task(&mut out, &db.tasks[i].1);
            proof {
                let s = db.tasks@;
                assert(s.take(i + 1 as int) =~= s.take(i as int).push(s[i as int]));
                if i == 0 {
                    assert(s.take(1int)[0] == s[0int]);
                    assert(render_entries(s.take(1int)) == render_entry(s[0int]));
                    assert(out@ =~= base + render_entries(s.take(1int)));
                } else {
                    lemma_entries_snoc(s.take(i as int), s[i as int]);
                    assert(out@ =~= base + render_entries(s.take(i + 1 as int)));
                }
            }
            i = i + 1;
        }
        push_lit(&mut out, "\n    }");
        proof {
            assert(db.tasks@.take(n as int) =~= db.tasks@);
            assert(out@ =~= "{\n    \"tasks\": "@ + render_tasks_obj(db.entries()));
        }
    }
    push_lit(&mut out, ",\n    \"ptr\": ");
    push_num(&mut out, db.ptr as u64);
    push_lit(&mut out, "\n}");
    proof {
        assert((db.ptr as u64) as nat == db.ptr as nat);
        assert(out@ =~= spec_render(*db));
    }
    chars_to_string(&out)
}

} // verus!
