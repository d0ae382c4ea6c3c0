//! The grouped key-value text format: `[account-name]` section headers
//! followed by `label=value` lines, one line per key, each line terminated
//! by a newline. Serialization and parsing are defined here, together with
//! the proof that a well-formed store survives the round trip.

use vstd::prelude::*;
use vstd::string::{StrSliceExecFns, StringExecFns};

use crate::store::{AccountV, KeyV, ScaleAccount, ScaleCredentials};
use crate::store::{find_account, keys_wf, upsert_seq};

verus! {

/// Index of the first occurrence of `c` in `s`, or `s.len()` if absent.
pub open spec fn find(s: Seq<char>, c: char) -> nat
    decreases s.len(),
{
    if s.len() == 0 {
        0
    } else if s[0] == c {
        0
    } else {
        1 + find(s.drop_first(), c)
    }
}

/// `find` returns the position of the first occurrence, within bounds.
pub proof fn lemma_find(s: Seq<char>, c: char)
    ensures
        find(s, c) <= s.len(),
        find(s, c) < s.len() ==> s[find(s, c) as int] == c,
        forall|i: int| 0 <= i < find(s, c) ==> s[i] != c,
    decreases s.len(),
{
    if s.len() > 0 && s[0] != c {
        lemma_find(s.drop_first(), c);
        assert forall|i: int| 0 <= i < find(s, c) implies s[i] != c by {
            if i > 0 {
                assert(s.drop_first()[i - 1] == s[i]);
            }
        }
    }
}

/// `find` pinned down: `d` is an occurrence with none before it.
pub proof fn lemma_find_is(s: Seq<char>, c: char, d: int)
    requires
        0 <= d < s.len(),
        s[d] == c,
        forall|i: int| 0 <= i < d ==> s[i] != c,
    ensures
        find(s, c) == d,
{
    lemma_find(s, c);
}

/// `find` pinned down: no occurrence at all.
pub proof fn lemma_find_none(s: Seq<char>, c: char)
    requires
        forall|i: int| 0 <= i < s.len() ==> s[i] != c,
    ensures
        find(s, c) == s.len(),
{
    lemma_find(s, c);
}

/// The text of one key: `label=value` and a newline.
pub open spec fn print_key(k: KeyV) -> Seq<char> {
    k.0 + seq!['='] + k.1 + seq!['\n']
}

/// The texts of an account's keys, in storage order.
pub open spec fn print_keys(ks: Seq<KeyV>) -> Seq<char>
    decreases ks.len(),
{
    if ks.len() == 0 {
        Seq::empty()
    } else {
        print_key(ks[0]) + print_keys(ks.drop_first())
    }
}

/// The text of one account: `[name]`, a newline, then its key lines.
pub open spec fn print_account(a: AccountV) -> Seq<char> {
    seq!['['] + a.0 + seq![']', '\n'] + print_keys(a.1)
}

/// The text of a whole store, accounts in storage order.
pub open spec fn print_doc(st: Seq<AccountV>) -> Seq<char>
    decreases st.len(),
{
    if st.len() == 0 {
        Seq::empty()
    } else {
        print_account(st[0]) + print_doc(st.drop_first())
    }
}

/// The text cut at each newline, newlines dropped. `None` when the final
/// line is not newline-terminated.
pub open spec fn split_lines(s: Seq<char>) -> Option<Seq<Seq<char>>>
    decreases s.len(),
{
    if s.len() == 0 {
        Some(Seq::empty())
    } else {
        let e = find(s, '\n');
        if e < s.len() {
            match split_lines(s.skip(e as int + 1)) {
                Some(ls) => Some(seq![s.subrange(0, e as int)] + ls),
                None => None,
            }
        } else {
            None
        }
    }
}

/// A section-header line: `[`, a name free of `]`, then `]` at the end.
pub open spec fn is_header(l: Seq<char>) -> bool {
    &&& l.len() >= 2
    &&& l[0] == '['
    &&& l[l.len() - 1] == ']'
    &&& forall|i: int| 1 <= i < l.len() - 1 ==> l[i] != ']'
}

pub open spec fn header_name(l: Seq<char>) -> Seq<char> {
    l.subrange(1, l.len() - 1)
}

/// Entering a section: an account already carrying the name moves to the
/// end (so that following key lines land in it); otherwise a fresh empty
/// account is appended.
pub open spec fn open_section(st: Seq<AccountV>, n: Seq<char>) -> Seq<AccountV> {
    if exists|i: int| 0 <= i < st.len() && st[i].0 == n {
        let i = choose|i: int| 0 <= i < st.len() && st[i].0 == n;
        st.remove(i).push(st[i])
    } else {
        st.push((n, Seq::empty()))
    }
}

/// A key line lands in the account opened last.
pub open spec fn add_key_last(st: Seq<AccountV>, l: Seq<char>, v: Seq<char>) -> Seq<AccountV> {
    let a = st.last();
    st.update(st.len() - 1, (a.0, upsert_seq(a.1, l, v)))
}

/// One line of input against the parser state. A blank line is skipped; a
/// line opening with `[` must be a well-shaped header; any other line must
/// hold `=` and needs an open section. The label ends at the first `=`.
pub open spec fn step(st: Seq<AccountV>, l: Seq<char>) -> Option<Seq<AccountV>> {
    if l.len() == 0 {
        Some(st)
    } else if l[0] == '[' {
        if is_header(l) {
            Some(open_section(st, header_name(l)))
        } else {
            None
        }
    } else {
        let e = find(l, '=');
        if e < l.len() {
            if st.len() == 0 {
                None
            } else {
                Some(add_key_last(st, l.subrange(0, e as int), l.subrange(e as int + 1, l.len() as int)))
            }
        } else {
            None
        }
    }
}

/// The parser: every line in order, stopping at the first offending one.
pub open spec fn run_lines(st: Seq<AccountV>, ls: Seq<Seq<char>>) -> Option<Seq<AccountV>>
    decreases ls.len(),
{
    if ls.len() == 0 {
        Some(st)
    } else {
        match step(st, ls[0]) {
            Some(st2) => run_lines(st2, ls.drop_first()),
            None => None,
        }
    }
}

/// Parsing resumed from a mid-text state.
pub open spec fn run_from(st: Seq<AccountV>, s: Seq<char>) -> Option<Seq<AccountV>> {
    match split_lines(s) {
        Some(ls) => run_lines(st, ls),
        None => None,
    }
}

/// What a whole text means: the accounts it describes, or nothing when it
/// is not grouped key-value text.
pub open spec fn parse_doc(s: Seq<char>) -> Option<Seq<AccountV>> {
    run_from(Seq::empty(), s)
}

/// Consuming the first line: parsing all of `s` is one `step` on the line
/// up to the first newline, then parsing the remainder.
pub proof fn lemma_run_from_step(st: Seq<AccountV>, s: Seq<char>)
    requires
        0 < s.len(),
        (find(s, '\n') as int) < s.len(),
    ensures
        run_from(st, s) == (match step(st, s.subrange(0, find(s, '\n') as int)) {
            Some(st2) => run_from(st2, s.skip(find(s, '\n') as int + 1)),
            None => None,
        }),
{
    let e = find(s, '\n') as int;
    match split_lines(s.skip(e + 1)) {
        Some(ls) => {
            let lines = seq![s.subrange(0, e)] + ls;
            assert(split_lines(s) == Some(lines));
            assert(lines[0] == s.subrange(0, e));
            assert(lines.drop_first() =~= ls);
        },
        None => {
            assert(split_lines(s) is None);
        },
    }
}

impl ScaleCredentials {
    /// The store rendered as grouped key-value text: one `[name]` header
    /// per account, then one `label=value` line per key, every line
    /// newline-terminated.
    pub fn serialize(&self) -> (out: String)
        ensures
            out@ == print_doc(self.accounts_view()),
    {
        let ghost accs = self.accounts_view();
        proof {
            reveal_strlit("[");
            reveal_strlit("]\n");
            reveal_strlit("=");
            reveal_strlit("\n");
            assert("["@ =~= seq!['[']);
            assert("]\n"@ =~= seq![']', '\n']);
            assert("="@ =~= seq!['=']);
            assert("\n"@ =~= seq!['\n']);
        }
        let mut out = String::new();
        let mut i: usize = 0;
        proof {
            assert(out@ + print_doc(accs.skip(0)) =~= print_doc(accs)) by {
                assert(accs.skip(0) =~= accs);
            }
        }
        while i < self.accounts.len()
            invariant
                i <= self.accounts@.len(),
                accs == self.accounts_view(),
                out@ + print_doc(accs.skip(i as int)) == print_doc(accs),
            decreases accs.len() - i,
        {
            let ghost out0 = out@;
            let ghost av = accs[i as int];
            proof {
                reveal_strlit("[");
                reveal_strlit("]\n");
                assert("["@ =~= seq!['[']);
                assert("]\n"@ =~= seq![']', '\n']);
                assert(accs.skip(i as int).drop_first() =~= accs.skip(i as int + 1));
                assert(accs.skip(i as int)[0] == av);
                assert(print_doc(accs.skip(i as int)) == print_account(av) + print_doc(
                    accs.skip(i as int + 1),
                ));
            }
            let a = &self.accounts[i];
            proof {
                assert(a@ == av);
            }
            out.append("[");
            out.append(a.name.as_str());
            out.append("]\n");
            proof {
                assert(out@ =~= out0 + (seq!['['] + av.0 + seq![']', '\n']));
            }
            let mut j: usize = 0;
            proof {
                assert(av.1.skip(0) =~= av.1);
            }
            while j < a.keys.len()
                invariant
                    j <= a.keys@.len(),
                    accs == self.accounts_view(),
                    i < accs.len(),
                    a == &self.accounts@[i as int],
                    av == accs[i as int],
                    a@ == av,
                    out@ + print_keys(av.1.skip(j as int)) =~= out0 + print_account(av),
                    out0 + print_doc(accs.skip(i as int)) == print_doc(accs),
                decreases a.keys@.len() - j,
            {
                let ghost mid = out@;
                let ghost kv = av.1[j as int];
                proof {
                    reveal_strlit("=");
                    reveal_strlit("\n");
                    assert("="@ =~= seq!['=']);
                    assert("\n"@ =~= seq!['\n']);
                    assert(av.1.skip(j as int).drop_first() =~= av.1.skip(j as int + 1));
                    assert(av.1.skip(j as int)[0] == kv);
                    assert(print_keys(av.1.skip(j as int)) == print_key(kv) + print_keys(
                        av.1.skip(j as int + 1),
                    ));
                }
                let k = &a.keys[j];
                proof {
                    assert(k@ == kv);
                }
                out.append(k.name.as_str());
                out.append("=");
                out.append(k.value.as_str());
                out.append("\n");
                proof {
                    assert(out@ =~= mid + print_key(kv));
                    assert(out@ + print_keys(av.1.skip(j as int + 1)) =~= mid + print_keys(
                        av.1.skip(j as int),
                    ));
                }
                j = j + 1;
            }
            proof {
                assert(av.1.skip(a.keys@.len() as int) =~= Seq::<KeyV>::empty());
                assert(out@ =~= out0 + print_account(av)) by {
                    assert(out@ + Seq::<char>::empty() =~= out@);
                }
                assert(out@ + print_doc(accs.skip(i as int + 1)) =~= out0 + print_doc(
                    accs.skip(i as int),
                ));
            }
            i = i + 1;
        }
        proof {
            assert(accs.skip(accs.len() as int) =~= Seq::<AccountV>::empty());
            assert(out@ + Seq::<char>::empty() =~= out@);
        }
        out
    }
}

/// A nonempty text without a newline has no parse.
pub proof fn lemma_run_from_unterminated(st: Seq<AccountV>, s: Seq<char>)
    requires
        0 < s.len(),
        find(s, '\n') == s.len(),
    ensures
        run_from(st, s) is None,
{
}

/// One key's line, without its terminating newline.
pub open spec fn key_line(k: KeyV) -> Seq<char> {
    k.0 + seq!['='] + k.1
}

pub open spec fn key_lines(ks: Seq<KeyV>) -> Seq<Seq<char>> {
    Seq::new(ks.len(), |x: int| key_line(ks[x]))
}

/// One account's header line, without its terminating newline.
pub open spec fn header_line(n: Seq<char>) -> Seq<char> {
    seq!['['] + n + seq![']']
}

/// The lines the printer emits: per account a header, then its key lines.
pub open spec fn doc_lines(st: Seq<AccountV>) -> Seq<Seq<char>>
    decreases st.len(),
{
    if st.len() == 0 {
        Seq::empty()
    } else {
        seq![header_line(st[0].0)] + key_lines(st[0].1) + doc_lines(st.drop_first())
    }
}

/// Splitting one newline-terminated line off the front.
pub proof fn lemma_split_one_line(l: Seq<char>, tail: Seq<char>)
    requires
        forall|x: int| 0 <= x < l.len() ==> l[x] != '\n',
    ensures
        split_lines(l + seq!['\n'] + tail) == (match split_lines(tail) {
            Some(ls) => Some(seq![l] + ls),
            None => None::<Seq<Seq<char>>>,
        }),
{
    let s = l + seq!['\n'] + tail;
    assert(s[l.len() as int] == '\n');
    lemma_find_is(s, '\n', l.len() as int);
    assert(s.subrange(0, l.len() as int) =~= l);
    assert(s.skip(l.len() as int + 1) =~= tail);
}

/// The printed key lines split off the front of any remainder.
pub proof fn lemma_split_print_keys(ks: Seq<KeyV>, rest: Seq<char>)
    requires
        forall|x: int| 0 <= x < ks.len() ==> crate::store::key_ok(#[trigger] ks[x]),
    ensures
        split_lines(print_keys(ks) + rest) == (match split_lines(rest) {
            Some(ls) => Some(key_lines(ks) + ls),
            None => None::<Seq<Seq<char>>>,
        }),
    decreases ks.len(),
{
    if ks.len() == 0 {
        assert(print_keys(ks) + rest =~= rest);
        if split_lines(rest) is Some {
            assert(key_lines(ks) + split_lines(rest).unwrap() =~= split_lines(rest).unwrap());
        }
    } else {
        let k = ks[0];
        let l = key_line(k);
        assert forall|x: int| 0 <= x < l.len() implies l[x] != '\n' by {
            assert(crate::store::key_ok(ks[0]));
            if x < k.0.len() {
                assert(l[x] == k.0[x]);
            } else if x == k.0.len() {
                assert(l[x] == '=');
            } else {
                assert(l[x] == k.1[x - k.0.len() - 1]);
            }
        }
        assert(print_keys(ks) + rest =~= l + seq!['\n'] + (print_keys(ks.drop_first()) + rest));
        lemma_split_one_line(l, print_keys(ks.drop_first()) + rest);
        assert forall|x: int| 0 <= x < ks.drop_first().len() implies crate::store::key_ok(
            #[trigger] ks.drop_first()[x],
        ) by {
            assert(ks.drop_first()[x] == ks[x + 1]);
        }
        lemma_split_print_keys(ks.drop_first(), rest);
        match split_lines(rest) {
            Some(ls) => {
                assert(seq![l] + (key_lines(ks.drop_first()) + ls) =~= key_lines(ks) + ls) by {
                    assert forall|x: int| 0 <= x < ks.len() implies (seq![l] + (key_lines(
                        ks.drop_first(),
                    ) + ls))[x] == key_line(ks[x]) by {
                        if x > 0 {
                            assert(ks.drop_first()[x - 1] == ks[x]);
                        }
                    }
                }
            },
            None => {},
        }
    }
}

/// The whole printed text splits into exactly the printed lines.
pub proof fn lemma_split_print_doc(st: Seq<AccountV>)
    requires
        crate::store::doc_ok(st),
    ensures
        split_lines(print_doc(st)) == Some(doc_lines(st)),
    decreases st.len(),
{
    if st.len() > 0 {
        let a = st[0];
        let hl = header_line(a.0);
        assert(crate::store::account_ok(a));
        assert forall|x: int| 0 <= x < hl.len() implies hl[x] != '\n' by {
            if 1 <= x < hl.len() - 1 {
                assert(hl[x] == a.0[x - 1]);
            }
        }
        let tail = print_keys(a.1) + print_doc(st.drop_first());
        assert(print_doc(st) =~= hl + seq!['\n'] + tail);
        lemma_split_one_line(hl, tail);
        lemma_split_print_keys(a.1, print_doc(st.drop_first()));
        assert forall|x: int| 0 <= x < st.drop_first().len() implies crate::store::account_ok(
            #[trigger] st.drop_first()[x],
        ) by {
            assert(st.drop_first()[x] == st[x + 1]);
        }
        lemma_split_print_doc(st.drop_first());
        assert(seq![hl] + (key_lines(a.1) + doc_lines(st.drop_first())) =~= doc_lines(st));
    }
}

/// Running the parser over an account's key lines fills the account opened
/// last, provided no label collides with one already present.
pub proof fn lemma_run_key_lines(st: Seq<AccountV>, ks: Seq<KeyV>, tail: Seq<Seq<char>>)
    requires
        st.len() > 0,
        keys_wf(st.last().1 + ks),
        forall|x: int| 0 <= x < ks.len() ==> crate::store::key_ok(#[trigger] ks[x]),
    ensures
        run_lines(st, key_lines(ks) + tail) == run_lines(
            st.update(st.len() - 1, (st.last().0, st.last().1 + ks)),
            tail,
        ),
    decreases ks.len(),
{
    if ks.len() == 0 {
        assert(key_lines(ks) + tail =~= tail);
        assert(st.update(st.len() - 1, (st.last().0, st.last().1 + ks)) =~~= st) by {
            assert(st.last().1 + ks =~= st.last().1);
        }
    } else {
        let k = ks[0];
        let l = key_line(k);
        let lines = key_lines(ks) + tail;
        assert(lines[0] == l);
        assert(crate::store::key_ok(k));
        // the line is classified as a key line
        assert(l.len() > 0);
        assert(l[0] != '[') by {
            if k.0.len() > 0 {
                assert(l[0] == k.0[0]);
            } else {
                assert(l[0] == '=');
            }
        }
        assert(l[k.0.len() as int] == '=');
        assert forall|x: int| 0 <= x < k.0.len() implies l[x] != '=' by {
            assert(l[x] == k.0[x]);
        }
        lemma_find_is(l, '=', k.0.len() as int);
        assert(l.subrange(0, k.0.len() as int) =~= k.0);
        assert(l.subrange(k.0.len() as int + 1, l.len() as int) =~= k.1);
        // the label is new, so the key is appended
        let ks0 = st.last().1;
        assert forall|x: int| 0 <= x < ks0.len() implies ks0[x].0 != k.0 by {
            assert((ks0 + ks)[x] == ks0[x]);
            assert((ks0 + ks)[ks0.len() as int] == k);
        }
        assert(upsert_seq(ks0, k.0, k.1) == ks0.push(k)) by {
            assert((k.0, k.1) == k);
        }
        let st2 = st.update(st.len() - 1, (st.last().0, ks0.push(k)));
        assert(add_key_last(st, k.0, k.1) == st2);
        assert(step(st, l) == Some(st2));
        // recurse over the remaining key lines
        assert(st2.last() == (st.last().0, ks0.push(k)));
        assert(keys_wf(st2.last().1 + ks.drop_first())) by {
            assert(st2.last().1 + ks.drop_first() =~= ks0 + ks);
        }
        assert forall|x: int| 0 <= x < ks.drop_first().len() implies crate::store::key_ok(
            #[trigger] ks.drop_first()[x],
        ) by {
            assert(ks.drop_first()[x] == ks[x + 1]);
        }
        lemma_run_key_lines(st2, ks.drop_first(), tail);
        assert(lines.drop_first() =~= key_lines(ks.drop_first()) + tail) by {
            assert forall|x: int|
                0 <= x < lines.drop_first().len() implies lines.drop_first()[x] == (key_lines(
                ks.drop_first(),
            ) + tail)[x] by {
                if x < ks.drop_first().len() {
                    assert(ks.drop_first()[x] == ks[x + 1]);
                }
            }
        }
        assert(st2.update(st2.len() - 1, (st2.last().0, st2.last().1 + ks.drop_first())) =~~= st.update(
            st.len() - 1,
            (st.last().0, st.last().1 + ks),
        )) by {
            assert(ks0.push(k) + ks.drop_first() =~= ks0 + ks);
        }
    }
}

/// Running the parser over the printed lines of fresh accounts appends
/// exactly those accounts.
pub proof fn lemma_run_doc_lines(st: Seq<AccountV>, accs: Seq<AccountV>)
    requires
        crate::store::accounts_wf(st + accs),
        crate::store::doc_ok(accs),
    ensures
        run_lines(st, doc_lines(accs)) == Some(st + accs),
    decreases accs.len(),
{
    if accs.len() == 0 {
        assert(st + accs =~= st);
    } else {
        let a = accs[0];
        let hl = header_line(a.0);
        let lines = doc_lines(accs);
        assert(lines[0] == hl);
        assert(crate::store::account_ok(a));
        // the header line is recognized
        assert(hl.len() >= 2);
        assert(hl[0] == '[');
        assert(hl[hl.len() - 1] == ']');
        assert forall|x: int| 1 <= x < hl.len() - 1 implies hl[x] != ']' by {
            assert(hl[x] == a.0[x - 1]);
        }
        assert(is_header(hl));
        assert(header_name(hl) =~= a.0);
        // the name is fresh, so a fresh empty account opens
        assert forall|x: int| 0 <= x < st.len() implies #[trigger] st[x].0 != a.0 by {
            assert((st + accs)[x] == st[x]);
            assert((st + accs)[st.len() as int] == a);
        }
        let st2 = st.push((a.0, Seq::<KeyV>::empty()));
        assert(open_section(st, a.0) == st2);
        assert(step(st, hl) == Some(st2));
        // its key lines fill it
        assert(keys_wf(st2.last().1 + a.1)) by {
            assert(st2.last().1 + a.1 =~= a.1);
            assert((st + accs)[st.len() as int] == a);
            assert(crate::store::keys_wf(a.1));
        }
        assert forall|x: int| 0 <= x < a.1.len() implies crate::store::key_ok(
            #[trigger] a.1[x],
        ) by {}
        lemma_run_key_lines(st2, a.1, doc_lines(accs.drop_first()));
        let st3 = st2.update(st2.len() - 1, (st2.last().0, st2.last().1 + a.1));
        assert(st3 =~~= st.push(a)) by {
            assert(Seq::<KeyV>::empty() + a.1 =~= a.1);
            assert((a.0, a.1) == a);
        }
        // the remaining accounts follow by induction
        assert(st.push(a) + accs.drop_first() =~= st + accs);
        assert forall|x: int| 0 <= x < accs.drop_first().len() implies crate::store::account_ok(
            #[trigger] accs.drop_first()[x],
        ) by {
            assert(accs.drop_first()[x] == accs[x + 1]);
        }
        lemma_run_doc_lines(st.push(a), accs.drop_first());
        assert(lines.drop_first() =~= key_lines(a.1) + doc_lines(accs.drop_first()));
        assert(run_lines(st2, key_lines(a.1) + doc_lines(accs.drop_first())) == run_lines(
            st3,
            doc_lines(accs.drop_first()),
        ));
        assert(run_lines(st3, doc_lines(accs.drop_first())) == Some(st + accs));
    }
}

/// Round trip: a well-formed store whose names, labels and values the text
/// format can carry parses back, from its own serialization, exactly as it
/// was — so no triple is lost, duplicated or reordered.
pub proof fn lemma_round_trip(accs: Seq<AccountV>)
    requires
        crate::store::accounts_wf(accs),
        crate::store::doc_ok(accs),
    ensures
        parse_doc(print_doc(accs)) == Some(accs),
{
    lemma_split_print_doc(accs);
    assert(Seq::<AccountV>::empty() + accs =~= accs);
    lemma_run_doc_lines(Seq::<AccountV>::empty(), accs);
}

/// First position in [`from`, `to`) where `text` holds `c`, or `to`.
fn scan(text: &str, from: usize, to: usize, c: char) -> (r: usize)
    requires
        from <= to,
        to <= text@.len(),
    ensures
        from <= r <= to,
        r < to ==> text@[r as int] == c,
        forall|i: int| from <= i < r ==> text@[i] != c,
{
    let mut k = from;
    while k < to
        invariant
            from <= k <= to,
            to <= text@.len(),
            forall|i: int| from <= i < k ==> text@[i] != c,
        decreases to - k,
    {
        if text.get_char(k) == c {
            return k;
        }
        k = k + 1;
    }
    k
}

impl ScaleCredentials {
    /// Parse `text` as grouped key-value text and build the store it
    /// describes, bound to `fp`. On any parse failure the result falls back
    /// to an empty store — a corrupt credentials file is advisory, not
    /// fatal — and the second component reports the fallback so a caller
    /// can emit its diagnostic.
    pub fn from_text(fp: &String, text: &str) -> (r: (ScaleCredentials, bool))
        ensures
            r.0.path() == fp@,
            r.0.wf(),
            match parse_doc(text@) {
                Some(accs) => !r.1 && r.0.accounts_view() == accs,
                None => r.1 && r.0.accounts_view() == Seq::<AccountV>::empty(),
            },
    {
        let n = text.unicode_len();
        let mut s = ScaleCredentials::new(fp);
        proof {
            assert(text@.skip(0) =~= text@);
        }
        let mut i: usize = 0;
        while i < n
            invariant
                i <= n,
                n == text@.len(),
                s.path() == fp@,
                s.wf(),
                run_from(s.accounts_view(), text@.skip(i as int)) == parse_doc(text@),
            decreases n - i,
        {
            let ghost st0 = s.accounts_view();
            let ghost rest = text@.skip(i as int);
            let j = scan(text, i, n, '\n');
            if j == n {
                proof {
                    assert forall|x: int| 0 <= x < rest.len() implies rest[x] != '\n' by {
                        assert(rest[x] == text@[i + x]);
                    }
                    lemma_find_none(rest, '\n');
                    lemma_run_from_unterminated(st0, rest);
                }
                return (ScaleCredentials::new(fp), true);
            }
            let ghost line = text@.subrange(i as int, j as int);
            proof {
                assert(rest[(j - i) as int] == text@[j as int]);
                assert forall|x: int| 0 <= x < j - i implies rest[x] != '\n' by {
                    assert(rest[x] == text@[i + x]);
                }
                lemma_find_is(rest, '\n', j - i);
                lemma_run_from_step(st0, rest);
                assert(rest.subrange(0, (j - i) as int) =~= line);
                assert(rest.skip((j - i) as int + 1) =~= text@.skip(j as int + 1));
                assert(line.len() == j - i);
                assert forall|x: int| 0 <= x < line.len() implies line[x] == text@[i + x] by {}
            }
            if j == i {
                proof {
                    assert(line.len() == 0);
                    assert(step(st0, line) == Some(st0));
                }
            } else {
                let c0 = text.get_char(i);
                proof {
                    assert(line[0] == text@[i as int]);
                }
                if c0 == '[' {
                    let k = scan(text, i + 1, j, ']');
                    if k + 1 == j {
                        proof {
                            assert(line[line.len() - 1] == text@[(j - 1) as int]);
                            assert forall|x: int| 1 <= x < line.len() - 1 implies line[x] != ']' by {
                                assert(line[x] == text@[i + x]);
                            }
                            assert(is_header(line));
                        }
                        let name = String::from_str(text.substring_char(i + 1, k));
                        let ghost nm = name@;
                        proof {
                            assert(nm =~= header_name(line));
                        }
                        match find_account(&s.accounts, &name) {
                            Some(ai) => {
                                let acc = s.accounts.remove(ai);
                                let ghost accv = acc@;
                                s.accounts.push(acc);
                                proof {
                                    assert(accv == st0[ai as int]);
                                    let st1 = st0.remove(ai as int).push(st0[ai as int]);
                                    assert(s.accounts_view() =~= st1);
                                    assert(open_section(st0, nm) == st1) by {
                                        assert(st0[ai as int].0 == nm);
                                        let i2 = choose|x: int|
                                            0 <= x < st0.len() && st0[x].0 == nm;
                                        assert(i2 == ai);
                                    }
                                    assert(step(st0, line) == Some(st1));
                                    assert forall|a: int| 0 <= a < st1.len() implies st1[a] == (
                                    if a < ai {
                                        st0[a]
                                    } else if a < st1.len() - 1 {
                                        st0[a + 1]
                                    } else {
                                        st0[ai as int]
                                    }) by {
                                        if a < st1.len() - 1 {
                                            assert(st1[a] == st0.remove(ai as int)[a]);
                                        }
                                    }
                                    assert forall|a: int, b: int|
                                        0 <= a < b < st1.len() implies st1[a].0 != st1[b].0 by {}
                                    assert forall|a: int| 0 <= a < st1.len() implies keys_wf(
                                        #[trigger] st1[a].1,
                                    ) by {}
                                }
                            },
                            None => {
                                s.accounts.push(ScaleAccount { name, keys: Vec::new() });
                                proof {
                                    let st1 = st0.push((nm, Seq::<KeyV>::empty()));
                                    assert(s.accounts_view() =~~= st1);
                                    assert forall|x: int|
                                        0 <= x < st0.len() implies #[trigger] st0[x].0 != nm by {}
                                    assert(open_section(st0, nm) == st1);
                                    assert(step(st0, line) == Some(st1));
                                    assert forall|a: int, b: int|
                                        0 <= a < b < st1.len() implies st1[a].0 != st1[b].0 by {}
                                    assert forall|a: int| 0 <= a < st1.len() implies keys_wf(
                                        #[trigger] st1[a].1,
                                    ) by {}
                                }
                            },
                        }
                    } else {
                        proof {
                            assert(!is_header(line)) by {
                                if k == j {
                                    if line.len() >= 2 {
                                        assert(line[line.len() - 1] == text@[(j - 1) as int]);
                                        assert(text@[(j - 1) as int] != ']');
                                    }
                                } else {
                                    assert(line[(k - i) as int] == text@[k as int]);
                                    assert(text@[k as int] == ']');
                                    assert(1 <= k - i < line.len() - 1);
                                }
                            }
                            assert(step(st0, line) is None);
                        }
                        return (ScaleCredentials::new(fp), true);
                    }
                } else {
                    let e = scan(text, i, j, '=');
                    if e == j {
                        proof {
                            assert forall|x: int| 0 <= x < line.len() implies line[x] != '=' by {
                                assert(line[x] == text@[i + x]);
                            }
                            lemma_find_none(line, '=');
                            assert(step(st0, line) is None);
                        }
                        return (ScaleCredentials::new(fp), true);
                    }
                    proof {
                        assert(line[(e - i) as int] == text@[e as int]);
                        assert forall|x: int| 0 <= x < e - i implies line[x] != '=' by {
                            assert(line[x] == text@[i + x]);
                        }
                        lemma_find_is(line, '=', e - i);
                    }
                    if s.accounts.len() == 0 {
                        proof {
                            assert(st0.len() == 0);
                            assert(step(st0, line) is None);
                        }
                        return (ScaleCredentials::new(fp), true);
                    }
                    let label = String::from_str(text.substring_char(i, e));
                    let value = String::from_str(text.substring_char(e + 1, j));
                    let ghost lv = label@;
                    let ghost vv = value@;
                    let mut acc = s.accounts.pop().unwrap();
                    proof {
                        assert(acc@ == st0.last());
                        assert(keys_wf(acc@.1)) by {
                            assert(st0[st0.len() - 1].1 == acc@.1);
                        }
                        assert(s.accounts_view() =~= st0.drop_last());
                    }
                    acc.upsert_key(&label, &value);
                    let ghost accv = acc@;
                    s.accounts.push(acc);
                    proof {
                        let st1 = st0.drop_last().push(accv);
                        assert(s.accounts_view() =~= st1);
                        assert(line.subrange(0, (e - i) as int) =~= lv);
                        assert(line.subrange((e - i) as int + 1, line.len() as int) =~= vv);
                        assert(add_key_last(st0, lv, vv) =~= st1);
                        assert(step(st0, line) == Some(st1));
                        assert forall|a: int, b: int|
                            0 <= a < b < st1.len() implies st1[a].0 != st1[b].0 by {
                            assert(st1[a] == st0[a]);
                            if b < st1.len() - 1 {
                                assert(st1[b] == st0[b]);
                            } else {
                                assert(st1[b].0 == st0[b].0);
                            }
                        }
                        assert forall|a: int| 0 <= a < st1.len() implies keys_wf(
                            #[trigger] st1[a].1,
                        ) by {
                            if a < st1.len() - 1 {
                                assert(st1[a] == st0[a]);
                            }
                        }
                    }
                }
            }
            i = j + 1;
            proof {
                assert(run_from(s.accounts_view(), text@.skip(i as int)) == parse_doc(text@));
            }
        }
        proof {
            assert(text@.skip(n as int) =~= Seq::<char>::empty());
            assert(split_lines(Seq::<char>::empty()) == Some(Seq::<Seq<char>>::empty()));
        }
        (s, false)
    }
}

/// Permission bits applied to the credentials file after every save:
/// read and write for the owning user only.
pub const SAVE_FILE_MODE: u32 = 0o600;

/// The load policy: content that is absent (no file, or one that could not
/// be read) or unparsable falls back to an empty store bound to `path`;
/// parsable content builds the full store. The second component reports
/// the fallback, so the caller can emit its diagnostic and continue.
pub fn load_or_create_credentials(path: &String, content: Option<&String>) -> (r: (
    ScaleCredentials,
    bool,
))
    ensures
        r.0.path() == path@,
        r.0.wf(),
        match content {
            Some(text) => match parse_doc(text@) {
                Some(accs) => !r.1 && r.0.accounts_view() == accs,
                None => r.1 && r.0.accounts_view() == Seq::<AccountV>::empty(),
            },
            None => r.1 && r.0.accounts_view() == Seq::<AccountV>::empty(),
        },
{
    match content {
        Some(text) => ScaleCredentials::from_text(path, text.as_str()),
        None => (ScaleCredentials::new(path), true),
    }
}

} // verus!
