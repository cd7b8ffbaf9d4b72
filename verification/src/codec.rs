//! The stored text form of series, notes, videos, archives and managers:
//! writers, readers, and the proof that reading inverts writing.

use vstd::prelude::*;
use vstd::string::StringExecFns;
use crate::date::YarkDate;
use crate::elements::Elements;
use crate::elements::entries_sorted;
use crate::elements::spec_insert_entry;
use crate::elements::lemma_insert_entry_append;
use crate::numtext::spec_dec_digits;
use crate::numtext::emit_u32;
use crate::numtext::push_char;
use crate::wire::matches_at;
use crate::wire::lemma_matches_at_split;
use crate::wire::lemma_matches_at_index;
use crate::wire::spec_ser_string;
use crate::wire::spec_parse_string;
use crate::wire::lemma_parse_ser_string;
use crate::wire::spec_ser_date;
use crate::wire::spec_parse_date;
use crate::wire::lemma_parse_ser_date;
use crate::wire::spec_parse_u32;
use crate::wire::lemma_parse_ser_u32;
use crate::numtext::spec_is_dec_digit;
use crate::wire::parse_string_at;
use crate::wire::parse_date_at;
use crate::wire::parse_u32_at;
use crate::wire::match_lit;
use crate::wire::emit_string;
use crate::wire::str_to_chars;
use crate::wire::emit_date;

verus! {

/// A string-valued series as mathematical values: dated character
/// sequences.
pub open spec fn model_str_series(s: Seq<(YarkDate, String)>) -> Seq<(YarkDate, Seq<char>)> {
    s.map_values(|e: (YarkDate, String)| (e.0, e.1@))
}

/// One dated entry of a string-valued series in the text form.
pub open spec fn ser_str_entry(e: (YarkDate, Seq<char>)) -> Seq<char> {
    spec_ser_date(e.0) + seq![':'] + spec_ser_string(e.1)
}

/// The comma-joined entries of a string-valued series.
pub open spec fn ser_str_entries(s: Seq<(YarkDate, Seq<char>)>) -> Seq<char>
    decreases s.len(),
{
    if s.len() == 0 {
        Seq::empty()
    } else if s.len() == 1 {
        ser_str_entry(s[0])
    } else {
        ser_str_entry(s[0]) + seq![','] + ser_str_entries(s.drop_first())
    }
}

/// A whole string-valued series in the text form.
pub open spec fn ser_str_series(s: Seq<(YarkDate, Seq<char>)>) -> Seq<char> {
    seq!['{'] + ser_str_entries(s) + seq!['}']
}

/// Reading the entries of a string-valued series: dated entries joined by
/// commas up to the closing brace, folded by dated insertion so that a
/// repeated date keeps its last value.
pub open spec fn parse_str_items(
    s: Seq<char>,
    i: int,
    acc: Seq<(YarkDate, Seq<char>)>,
) -> Option<(Seq<(YarkDate, Seq<char>)>, int)>
    decreases s.len() - i,
{
    match spec_parse_date(s, i) {
        None => None,
        Some((d, j1)) => if !(j1 < s.len() && s[j1] == ':') {
            None
        } else {
            match spec_parse_string(s, j1 + 1) {
                None => None,
                Some((v, j2)) => {
                    let acc2 = spec_insert_entry(acc, d, v);
                    if j2 < s.len() && s[j2] == '}' {
                        Some((acc2, j2 + 1))
                    } else if j2 < s.len() && s[j2] == ',' && i < j2 + 1 <= s.len() {
                        parse_str_items(s, j2 + 1, acc2)
                    } else {
                        None
                    }
                },
            }
        },
    }
}

/// Reading a whole string-valued series.
pub open spec fn parse_str_series(s: Seq<char>, i: int) -> Option<
    (Seq<(YarkDate, Seq<char>)>, int),
> {
    if !(0 <= i && i < s.len() && s[i] == '{') {
        None
    } else if i + 1 < s.len() && s[i + 1] == '}' {
        Some((Seq::empty(), i + 2))
    } else {
        parse_str_items(s, i + 1, Seq::empty())
    }
}

/// Reading written entries back extends the fold by exactly those entries,
/// where every written date comes after everything accumulated so far.
pub proof fn lemma_parse_ser_str_items(
    s: Seq<char>,
    i: int,
    acc: Seq<(YarkDate, Seq<char>)>,
    m: Seq<(YarkDate, Seq<char>)>,
)
    requires
        m.len() > 0,
        entries_sorted(acc + m),
        forall|k: int| 0 <= k < m.len() ==> (#[trigger] m[k]).0.wf(),
        matches_at(s, i, ser_str_entries(m) + seq!['}']),
    ensures
        parse_str_items(s, i, acc) == Some(
            (acc + m, i + ser_str_entries(m).len() + 1),
        ),
    decreases m.len(),
{
    let e = m[0];
    let dtxt = spec_ser_date(e.0);
    let vtxt = spec_ser_string(e.1);
    assert(ser_str_entry(e) == dtxt + seq![':'] + vtxt);
    assert forall|k: int| 0 <= k < acc.len() implies (#[trigger] acc[k]).0.spec_lt(e.0) by {
        assert((acc + m)[k] == acc[k]);
        assert((acc + m)[acc.len() as int] == e);
    }
    lemma_insert_entry_append(acc, e.0, e.1);
    assert(spec_insert_entry(acc, e.0, e.1) == acc.push(e));
    assert(acc.push(e) =~= acc + seq![e]);
    if m.len() == 1 {
        assert(ser_str_entries(m) == ser_str_entry(e));
        assert(ser_str_entries(m) + seq!['}'] =~= (dtxt + seq![':'] + vtxt) + seq!['}']);
        lemma_matches_at_split(s, i, dtxt + seq![':'] + vtxt, seq!['}']);
        lemma_matches_at_split(s, i, dtxt + seq![':'], vtxt);
        lemma_matches_at_split(s, i, dtxt, seq![':']);
        lemma_parse_ser_date(s, i, e.0);
        lemma_matches_at_index(s, i + dtxt.len(), seq![':'], 0);
        lemma_parse_ser_string(s, i + dtxt.len() + 1, e.1);
        lemma_matches_at_index(s, i + ser_str_entries(m).len(), seq!['}'], 0);
        assert(acc + m =~= acc + seq![e]);
    } else {
        let rest = m.drop_first();
        assert(ser_str_entries(m) == ser_str_entry(e) + seq![','] + ser_str_entries(rest));
        assert(ser_str_entries(m) + seq!['}'] =~= dtxt + (seq![':'] + (vtxt + (seq![','] + (
        ser_str_entries(rest) + seq!['}'])))));
        lemma_matches_at_split(s, i, dtxt, seq![':'] + (vtxt + (seq![','] + (ser_str_entries(rest)
            + seq!['}']))));
        lemma_parse_ser_date(s, i, e.0);
        let i1 = i + dtxt.len();
        lemma_matches_at_split(s, i1, seq![':'], vtxt + (seq![','] + (ser_str_entries(rest)
            + seq!['}'])));
        lemma_matches_at_index(s, i1, seq![':'], 0);
        let i2 = i1 + 1;
        lemma_matches_at_split(s, i2, vtxt, seq![','] + (ser_str_entries(rest) + seq!['}']));
        lemma_parse_ser_string(s, i2, e.1);
        let i3 = i2 + vtxt.len();
        lemma_matches_at_split(s, i3, seq![','], ser_str_entries(rest) + seq!['}']);
        lemma_matches_at_index(s, i3, seq![','], 0);
        let i4 = i3 + 1;
        assert(entries_sorted((acc + seq![e]) + rest)) by {
            assert((acc + seq![e]) + rest =~= acc + m);
        }
        lemma_parse_ser_str_items(s, i4, acc + seq![e], rest);
        assert((acc + seq![e]) + rest =~= acc + m);
        assert(s[i3] == ',' && !(s[i3] == '}'));
    }
}

/// Reading a written string-valued series back yields its entries again.
pub proof fn lemma_parse_ser_str_series(s: Seq<char>, i: int, m: Seq<(YarkDate, Seq<char>)>)
    requires
        entries_sorted(m),
        forall|k: int| 0 <= k < m.len() ==> (#[trigger] m[k]).0.wf(),
        matches_at(s, i, ser_str_series(m)),
    ensures
        parse_str_series(s, i) == Some((m, i + ser_str_series(m).len())),
{
    assert(ser_str_series(m) =~= seq!['{'] + (ser_str_entries(m) + seq!['}']));
    lemma_matches_at_split(s, i, seq!['{'], ser_str_entries(m) + seq!['}']);
    lemma_matches_at_index(s, i, seq!['{'], 0);
    if m.len() == 0 {
        assert(ser_str_entries(m) == Seq::<char>::empty());
        lemma_matches_at_index(s, i + 1, ser_str_entries(m) + seq!['}'], 0);
        assert(s[i + 1] == '}');
    } else {
        assert(Seq::<(YarkDate, Seq<char>)>::empty() + m =~= m);
        lemma_parse_ser_str_items(s, i + 1, Seq::empty(), m);
        // the first character after the opening brace starts a date, not a brace
        let dtxt = spec_ser_date(m[0].0);
        assert(ser_str_entries(m) + seq!['}'] =~= dtxt + ((ser_str_entries(m) + seq![
            '}',
        ]).skip(dtxt.len() as int))) by {
            if m.len() == 1 {
                assert(ser_str_entries(m) == ser_str_entry(m[0]));
            }
        }
        lemma_matches_at_split(s, i + 1, dtxt, (ser_str_entries(m) + seq!['}']).skip(
            dtxt.len() as int,
        ));
        lemma_matches_at_index(s, i + 1, dtxt, 0);
        assert(s[i + 1] == '"');
    }
}

/// An optional count in the text form: `null` when hidden.
pub open spec fn ser_opt_u32(v: Option<u32>) -> Seq<char> {
    match v {
        None => "null"@,
        Some(n) => spec_dec_digits(n as int),
    }
}

/// Reading an optional count.
pub open spec fn parse_opt_u32(s: Seq<char>, i: int) -> Option<(Option<u32>, int)> {
    if matches_at(s, i, "null"@) {
        Some((None, i + 4))
    } else {
        match spec_parse_u32(s, i) {
            Some((n, j)) => Some((Some(n), j)),
            None => None,
        }
    }
}

/// Reading a written optional count back, with no digit following.
pub proof fn lemma_parse_ser_opt_u32(s: Seq<char>, i: int, v: Option<u32>)
    requires
        matches_at(s, i, ser_opt_u32(v)),
        i + ser_opt_u32(v).len() == s.len() || !spec_is_dec_digit(s[i + ser_opt_u32(v).len()]),
    ensures
        parse_opt_u32(s, i) == Some((v, i + ser_opt_u32(v).len())),
{
    reveal_strlit("null");
    match v {
        None => {
            assert("null"@.len() == 4);
        },
        Some(n) => {
            crate::numtext::lemma_pad_shape(n as int, crate::numtext::spec_ndigits(n as int, 10), 10);
            assert(!matches_at(s, i, "null"@)) by {
                if matches_at(s, i, "null"@) {
                    lemma_matches_at_index(s, i, "null"@, 0);
                    lemma_matches_at_index(s, i, ser_opt_u32(v), 0);
                    assert(spec_is_dec_digit(ser_opt_u32(v)[0]));
                }
            }
            lemma_parse_ser_u32(s, i, n);
        },
    }
}

/// A visibility flag in the text form.
pub open spec fn ser_bool(v: bool) -> Seq<char> {
    if v {
        "true"@
    } else {
        "false"@
    }
}

/// Reading a visibility flag.
pub open spec fn parse_bool(s: Seq<char>, i: int) -> Option<(bool, int)> {
    if matches_at(s, i, "true"@) {
        Some((true, i + 4))
    } else if matches_at(s, i, "false"@) {
        Some((false, i + 5))
    } else {
        None
    }
}

/// Reading a written flag back.
pub proof fn lemma_parse_ser_bool(s: Seq<char>, i: int, v: bool)
    requires
        matches_at(s, i, ser_bool(v)),
    ensures
        parse_bool(s, i) == Some((v, i + ser_bool(v).len())),
{
    reveal_strlit("true");
    reveal_strlit("false");
    if v {
    } else {
        assert(!matches_at(s, i, "true"@)) by {
            if matches_at(s, i, "true"@) {
                lemma_matches_at_index(s, i, "true"@, 0);
                lemma_matches_at_index(s, i, "false"@, 0);
            }
        }
    }
}

/// One dated entry of a count-valued series in the text form.
pub open spec fn ser_opt_entry(e: (YarkDate, Option<u32>)) -> Seq<char> {
    spec_ser_date(e.0) + seq![':'] + ser_opt_u32(e.1)
}

/// The comma-joined entries of a count-valued series.
pub open spec fn ser_opt_entries(s: Seq<(YarkDate, Option<u32>)>) -> Seq<char>
    decreases s.len(),
{
    if s.len() == 0 {
        Seq::empty()
    } else if s.len() == 1 {
        ser_opt_entry(s[0])
    } else {
        ser_opt_entry(s[0]) + seq![','] + ser_opt_entries(s.drop_first())
    }
}

/// A whole count-valued series in the text form.
pub open spec fn ser_opt_series(s: Seq<(YarkDate, Option<u32>)>) -> Seq<char> {
    seq!['{'] + ser_opt_entries(s) + seq!['}']
}

/// Reading the entries of a count-valued series, folded by dated insertion.
pub open spec fn parse_opt_items(
    s: Seq<char>,
    i: int,
    acc: Seq<(YarkDate, Option<u32>)>,
) -> Option<(Seq<(YarkDate, Option<u32>)>, int)>
    decreases s.len() - i,
{
    match spec_parse_date(s, i) {
        None => None,
        Some((d, j1)) => if !(j1 < s.len() && s[j1] == ':') {
            None
        } else {
            match parse_opt_u32(s, j1 + 1) {
                None => None,
                Some((v, j2)) => {
                    let acc2 = spec_insert_entry(acc, d, v);
                    if j2 < s.len() && s[j2] == '}' {
                        Some((acc2, j2 + 1))
                    } else if j2 < s.len() && s[j2] == ',' && i < j2 + 1 <= s.len() {
                        parse_opt_items(s, j2 + 1, acc2)
                    } else {
                        None
                    }
                },
            }
        },
    }
}

/// Reading a whole count-valued series.
pub open spec fn parse_opt_series(s: Seq<char>, i: int) -> Option<
    (Seq<(YarkDate, Option<u32>)>, int),
> {
    if !(0 <= i && i < s.len() && s[i] == '{') {
        None
    } else if i + 1 < s.len() && s[i + 1] == '}' {
        Some((Seq::empty(), i + 2))
    } else {
        parse_opt_items(s, i + 1, Seq::empty())
    }
}

/// Reading written count-valued entries back extends the fold by exactly them.
pub proof fn lemma_parse_ser_opt_items(
    s: Seq<char>,
    i: int,
    acc: Seq<(YarkDate, Option<u32>)>,
    m: Seq<(YarkDate, Option<u32>)>,
)
    requires
        m.len() > 0,
        entries_sorted(acc + m),
        forall|k: int| 0 <= k < m.len() ==> (#[trigger] m[k]).0.wf(),
        matches_at(s, i, ser_opt_entries(m) + seq!['}']),
    ensures
        parse_opt_items(s, i, acc) == Some(
            (acc + m, i + ser_opt_entries(m).len() + 1),
        ),
    decreases m.len(),
{
    let e = m[0];
    let dtxt = spec_ser_date(e.0);
    let vtxt = ser_opt_u32(e.1);
    assert(ser_opt_entry(e) == dtxt + seq![':'] + vtxt);
    assert forall|k: int| 0 <= k < acc.len() implies (#[trigger] acc[k]).0.spec_lt(e.0) by {
        assert((acc + m)[k] == acc[k]);
        assert((acc + m)[acc.len() as int] == e);
    }
    lemma_insert_entry_append(acc, e.0, e.1);
    assert(spec_insert_entry(acc, e.0, e.1) == acc.push(e));
    assert(acc.push(e) =~= acc + seq![e]);
    if m.len() == 1 {
        assert(ser_opt_entries(m) == ser_opt_entry(e));
        assert(ser_opt_entries(m) + seq!['}'] =~= (dtxt + seq![':'] + vtxt) + seq!['}']);
        lemma_matches_at_split(s, i, dtxt + seq![':'] + vtxt, seq!['}']);
        lemma_matches_at_split(s, i, dtxt + seq![':'], vtxt);
        lemma_matches_at_split(s, i, dtxt, seq![':']);
        lemma_parse_ser_date(s, i, e.0);
        lemma_matches_at_index(s, i + dtxt.len(), seq![':'], 0);
        lemma_matches_at_index(s, i + ser_opt_entries(m).len(), seq!['}'], 0);
        assert(s[i + ser_opt_entries(m).len()] == '}');
        assert(!spec_is_dec_digit('}'));
        lemma_parse_ser_opt_u32(s, i + dtxt.len() + 1, e.1);
        assert(acc + m =~= acc + seq![e]);
    } else {
        let rest = m.drop_first();
        assert(ser_opt_entries(m) == ser_opt_entry(e) + seq![','] + ser_opt_entries(rest));
        assert(ser_opt_entries(m) + seq!['}'] =~= dtxt + (seq![':'] + (vtxt + (seq![','] + (
        ser_opt_entries(rest) + seq!['}'])))));
        lemma_matches_at_split(s, i, dtxt, seq![':'] + (vtxt + (seq![','] + (ser_opt_entries(rest)
            + seq!['}']))));
        lemma_parse_ser_date(s, i, e.0);
        let i1 = i + dtxt.len();
        lemma_matches_at_split(s, i1, seq![':'], vtxt + (seq![','] + (ser_opt_entries(rest)
            + seq!['}'])));
        lemma_matches_at_index(s, i1, seq![':'], 0);
        let i2 = i1 + 1;
        lemma_matches_at_split(s, i2, vtxt, seq![','] + (ser_opt_entries(rest) + seq!['}']));
        let i3 = i2 + vtxt.len();
        lemma_matches_at_split(s, i3, seq![','], ser_opt_entries(rest) + seq!['}']);
        lemma_matches_at_index(s, i3, seq![','], 0);
        assert(s[i3] == ',');
        assert(!spec_is_dec_digit(','));
        lemma_parse_ser_opt_u32(s, i2, e.1);
        let i4 = i3 + 1;
        assert(entries_sorted((acc + seq![e]) + rest)) by {
            assert((acc + seq![e]) + rest =~= acc + m);
        }
        lemma_parse_ser_opt_items(s, i4, acc + seq![e], rest);
        assert((acc + seq![e]) + rest =~= acc + m);
        assert(s[i3] == ',' && !(s[i3] == '}'));
    }
}

/// Reading a written count-valued series back yields its entries again.
pub proof fn lemma_parse_ser_opt_series(s: Seq<char>, i: int, m: Seq<(YarkDate, Option<u32>)>)
    requires
        entries_sorted(m),
        forall|k: int| 0 <= k < m.len() ==> (#[trigger] m[k]).0.wf(),
        matches_at(s, i, ser_opt_series(m)),
    ensures
        parse_opt_series(s, i) == Some((m, i + ser_opt_series(m).len())),
{
    assert(ser_opt_series(m) =~= seq!['{'] + (ser_opt_entries(m) + seq!['}']));
    lemma_matches_at_split(s, i, seq!['{'], ser_opt_entries(m) + seq!['}']);
    lemma_matches_at_index(s, i, seq!['{'], 0);
    if m.len() == 0 {
        assert(ser_opt_entries(m) == Seq::<char>::empty());
        lemma_matches_at_index(s, i + 1, ser_opt_entries(m) + seq!['}'], 0);
        assert(s[i + 1] == '}');
    } else {
        assert(Seq::<(YarkDate, Option<u32>)>::empty() + m =~= m);
        lemma_parse_ser_opt_items(s, i + 1, Seq::empty(), m);
        let dtxt = spec_ser_date(m[0].0);
        assert(ser_opt_entries(m) + seq!['}'] =~= dtxt + ((ser_opt_entries(m) + seq![
            '}',
        ]).skip(dtxt.len() as int))) by {
            if m.len() == 1 {
                assert(ser_opt_entries(m) == ser_opt_entry(m[0]));
            }
        }
        lemma_matches_at_split(s, i + 1, dtxt, (ser_opt_entries(m) + seq!['}']).skip(
            dtxt.len() as int,
        ));
        lemma_matches_at_index(s, i + 1, dtxt, 0);
        assert(s[i + 1] == '"');
    }
}

/// One dated entry of a flag-valued series in the text form.
pub open spec fn ser_bool_entry(e: (YarkDate, bool)) -> Seq<char> {
    spec_ser_date(e.0) + seq![':'] + ser_bool(e.1)
}

/// The comma-joined entries of a flag-valued series.
pub open spec fn ser_bool_entries(s: Seq<(YarkDate, bool)>) -> Seq<char>
    decreases s.len(),
{
    if s.len() == 0 {
        Seq::empty()
    } else if s.len() == 1 {
        ser_bool_entry(s[0])
    } else {
        ser_bool_entry(s[0]) + seq![','] + ser_bool_entries(s.drop_first())
    }
}

/// A whole flag-valued series in the text form.
pub open spec fn ser_bool_series(s: Seq<(YarkDate, bool)>) -> Seq<char> {
    seq!['{'] + ser_bool_entries(s) + seq!['}']
}

/// Reading the entries of a flag-valued series, folded by dated insertion.
pub open spec fn parse_bool_items(
    s: Seq<char>,
    i: int,
    acc: Seq<(YarkDate, bool)>,
) -> Option<(Seq<(YarkDate, bool)>, int)>
    decreases s.len() - i,
{
    match spec_parse_date(s, i) {
        None => None,
        Some((d, j1)) => if !(j1 < s.len() && s[j1] == ':') {
            None
        } else {
            match parse_bool(s, j1 + 1) {
                None => None,
                Some((v, j2)) => {
                    let acc2 = spec_insert_entry(acc, d, v);
                    if j2 < s.len() && s[j2] == '}' {
                        Some((acc2, j2 + 1))
                    } else if j2 < s.len() && s[j2] == ',' && i < j2 + 1 <= s.len() {
                        parse_bool_items(s, j2 + 1, acc2)
                    } else {
                        None
                    }
                },
            }
        },
    }
}

/// Reading a whole flag-valued series.
pub open spec fn parse_bool_series(s: Seq<char>, i: int) -> Option<
    (Seq<(YarkDate, bool)>, int),
> {
    if !(0 <= i && i < s.len() && s[i] == '{') {
        None
    } else if i + 1 < s.len() && s[i + 1] == '}' {
        Some((Seq::empty(), i + 2))
    } else {
        parse_bool_items(s, i + 1, Seq::empty())
    }
}

/// Reading written flag-valued entries back extends the fold by exactly them.
pub proof fn lemma_parse_ser_bool_items(
    s: Seq<char>,
    i: int,
    acc: Seq<(YarkDate, bool)>,
    m: Seq<(YarkDate, bool)>,
)
    requires
        m.len() > 0,
        entries_sorted(acc + m),
        forall|k: int| 0 <= k < m.len() ==> (#[trigger] m[k]).0.wf(),
        matches_at(s, i, ser_bool_entries(m) + seq!['}']),
    ensures
        parse_bool_items(s, i, acc) == Some(
            (acc + m, i + ser_bool_entries(m).len() + 1),
        ),
    decreases m.len(),
{
    let e = m[0];
    let dtxt = spec_ser_date(e.0);
    let vtxt = ser_bool(e.1);
    assert(ser_bool_entry(e) == dtxt + seq![':'] + vtxt);
    assert forall|k: int| 0 <= k < acc.len() implies (#[trigger] acc[k]).0.spec_lt(e.0) by {
        assert((acc + m)[k] == acc[k]);
        assert((acc + m)[acc.len() as int] == e);
    }
    lemma_insert_entry_append(acc, e.0, e.1);
    assert(spec_insert_entry(acc, e.0, e.1) == acc.push(e));
    assert(acc.push(e) =~= acc + seq![e]);
    if m.len() == 1 {
        assert(ser_bool_entries(m) == ser_bool_entry(e));
        assert(ser_bool_entries(m) + seq!['}'] =~= (dtxt + seq![':'] + vtxt) + seq!['}']);
        lemma_matches_at_split(s, i, dtxt + seq![':'] + vtxt, seq!['}']);
        lemma_matches_at_split(s, i, dtxt + seq![':'], vtxt);
        lemma_matches_at_split(s, i, dtxt, seq![':']);
        lemma_parse_ser_date(s, i, e.0);
        lemma_matches_at_index(s, i + dtxt.len(), seq![':'], 0);
        lemma_matches_at_index(s, i + ser_bool_entries(m).len(), seq!['}'], 0);
        assert(s[i + ser_bool_entries(m).len()] == '}');
        assert(!spec_is_dec_digit('}'));
        lemma_parse_ser_bool(s, i + dtxt.len() + 1, e.1);
        assert(acc + m =~= acc + seq![e]);
    } else {
        let rest = m.drop_first();
        assert(ser_bool_entries(m) == ser_bool_entry(e) + seq![','] + ser_bool_entries(rest));
        assert(ser_bool_entries(m) + seq!['}'] =~= dtxt + (seq![':'] + (vtxt + (seq![','] + (
        ser_bool_entries(rest) + seq!['}'])))));
        lemma_matches_at_split(s, i, dtxt, seq![':'] + (vtxt + (seq![','] + (ser_bool_entries(rest)
            + seq!['}']))));
        lemma_parse_ser_date(s, i, e.0);
        let i1 = i + dtxt.len();
        lemma_matches_at_split(s, i1, seq![':'], vtxt + (seq![','] + (ser_bool_entries(rest)
            + seq!['}'])));
        lemma_matches_at_index(s, i1, seq![':'], 0);
        let i2 = i1 + 1;
        lemma_matches_at_split(s, i2, vtxt, seq![','] + (ser_bool_entries(rest) + seq!['}']));
        let i3 = i2 + vtxt.len();
        lemma_matches_at_split(s, i3, seq![','], ser_bool_entries(rest) + seq!['}']);
        lemma_matches_at_index(s, i3, seq![','], 0);
        assert(s[i3] == ',');
        assert(!spec_is_dec_digit(','));
        lemma_parse_ser_bool(s, i2, e.1);
        let i4 = i3 + 1;
        assert(entries_sorted((acc + seq![e]) + rest)) by {
            assert((acc + seq![e]) + rest =~= acc + m);
        }
        lemma_parse_ser_bool_items(s, i4, acc + seq![e], rest);
        assert((acc + seq![e]) + rest =~= acc + m);
        assert(s[i3] == ',' && !(s[i3] == '}'));
    }
}

/// Reading a written flag-valued series back yields its entries again.
pub proof fn lemma_parse_ser_bool_series(s: Seq<char>, i: int, m: Seq<(YarkDate, bool)>)
    requires
        entries_sorted(m),
        forall|k: int| 0 <= k < m.len() ==> (#[trigger] m[k]).0.wf(),
        matches_at(s, i, ser_bool_series(m)),
    ensures
        parse_bool_series(s, i) == Some((m, i + ser_bool_series(m).len())),
{
    assert(ser_bool_series(m) =~= seq!['{'] + (ser_bool_entries(m) + seq!['}']));
    lemma_matches_at_split(s, i, seq!['{'], ser_bool_entries(m) + seq!['}']);
    lemma_matches_at_index(s, i, seq!['{'], 0);
    if m.len() == 0 {
        assert(ser_bool_entries(m) == Seq::<char>::empty());
        lemma_matches_at_index(s, i + 1, ser_bool_entries(m) + seq!['}'], 0);
        assert(s[i + 1] == '}');
    } else {
        assert(Seq::<(YarkDate, bool)>::empty() + m =~= m);
        lemma_parse_ser_bool_items(s, i + 1, Seq::empty(), m);
        let dtxt = spec_ser_date(m[0].0);
        assert(ser_bool_entries(m) + seq!['}'] =~= dtxt + ((ser_bool_entries(m) + seq![
            '}',
        ]).skip(dtxt.len() as int))) by {
            if m.len() == 1 {
                assert(ser_bool_entries(m) == ser_bool_entry(m[0]));
            }
        }
        lemma_matches_at_split(s, i + 1, dtxt, (ser_bool_entries(m) + seq!['}']).skip(
            dtxt.len() as int,
        ));
        lemma_matches_at_index(s, i + 1, dtxt, 0);
        assert(s[i + 1] == '"');
    }
}

/// Writes an optional count.
pub fn emit_opt_u32(out: &mut String, v: &Option<u32>)
    ensures
        final(out)@ == old(out)@ + ser_opt_u32(*v),
{
    match v {
        None => {
            out.append("null");
        },
        Some(n) => {
            emit_u32(out, *n);
        },
    }
}

/// Writes a visibility flag.
pub fn emit_bool(out: &mut String, v: bool)
    ensures
        final(out)@ == old(out)@ + ser_bool(v),
{
    if v {
        out.append("true");
    } else {
        out.append("false");
    }
}

/// Reads an optional count starting at `i`.
pub fn parse_opt_u32_at(s: &Vec<char>, i: usize) -> (r: Option<(Option<u32>, usize)>)
    requires
        i <= s@.len(),
    ensures
        match parse_opt_u32(s@, i as int) {
            Some((v, j)) => r matches Some(p) && p.0 == v && p.1 as int == j && p.1 <= s@.len(),
            None => r is None,
        },
{
    proof {
        reveal_strlit("null");
    }
    if match_lit(s, i, "null") {
        let slen = s.len();
        proof {
            assert(i + 4 <= slen);
        }
        return Some((None, i + 4));
    }
    match parse_u32_at(s, i) {
        None => None,
        Some((n, j)) => Some((Some(n), j)),
    }
}

/// Reads a visibility flag starting at `i`.
pub fn parse_bool_at(s: &Vec<char>, i: usize) -> (r: Option<(bool, usize)>)
    requires
        i <= s@.len(),
    ensures
        match parse_bool(s@, i as int) {
            Some((v, j)) => r matches Some(p) && p.0 == v && p.1 as int == j && p.1 <= s@.len(),
            None => r is None,
        },
{
    proof {
        reveal_strlit("true");
        reveal_strlit("false");
    }
    if match_lit(s, i, "true") {
        let slen = s.len();
        proof {
            assert(i + 4 <= slen);
        }
        return Some((true, i + 4));
    }
    if match_lit(s, i, "false") {
        let slen = s.len();
        proof {
            assert(i + 5 <= slen);
        }
        return Some((false, i + 5));
    }
    None
}

/// A successful optional-count read moved the position forward.
pub proof fn lemma_parse_opt_shape(s: Seq<char>, i: int)
    requires
        0 <= i,
    ensures
        parse_opt_u32(s, i) matches Some((v, j)) ==> i < j <= s.len(),
{
    reveal_strlit("null");
    if i <= s.len() {
        crate::wire::lemma_digit_run_bounds(s, i);
    } else {
        assert(crate::wire::digit_run(s, i) == 0);
    }
}

/// A successful flag read moved the position forward.
pub proof fn lemma_parse_bool_shape(s: Seq<char>, i: int)
    requires
        0 <= i,
    ensures
        parse_bool(s, i) matches Some((v, j)) ==> i < j <= s.len(),
{
    reveal_strlit("true");
    reveal_strlit("false");
}

/// Mapping a string-valued series to its model commutes with insertion.
pub proof fn lemma_model_insert_commutes(es: Seq<(YarkDate, String)>, d: YarkDate, v: String)
    ensures
        model_str_series(spec_insert_entry(es, d, v)) == spec_insert_entry(
            model_str_series(es),
            d,
            v@,
        ),
    decreases es.len(),
{
    let m = model_str_series(es);
    if es.len() == 0 {
        assert(model_str_series(seq![(d, v)]) =~= seq![(d, v@)]);
        assert(spec_insert_entry(m, d, v@) == seq![(d, v@)]) by {
            assert(m.len() == 0);
        }
    } else {
        assert(m.len() == es.len());
        assert(m.last() == (es.last().0, es.last().1@));
        if es.last().0.spec_lt(d) {
            assert(model_str_series(es.push((d, v))) =~= m.push((d, v@)));
        } else if d.spec_lt(es.last().0) {
            lemma_model_insert_commutes(es.drop_last(), d, v);
            assert(model_str_series(es.drop_last()) =~= m.drop_last());
            assert(model_str_series(
                spec_insert_entry(es.drop_last(), d, v).push(es.last()),
            ) =~= spec_insert_entry(m.drop_last(), d, v@).push(m.last()));
        } else {
            assert(model_str_series(es.drop_last().push((d, v))) =~= m.drop_last().push(
                (d, v@),
            ));
        }
    }
}

/// The entries text grows at its end as entries are appended.
pub proof fn lemma_ser_str_entries_snoc(m: Seq<(YarkDate, Seq<char>)>)
    requires
        m.len() > 0,
    ensures
        m.len() == 1 ==> ser_str_entries(m) == ser_str_entry(m[0]),
        m.len() > 1 ==> ser_str_entries(m) == ser_str_entries(m.drop_last()) + seq![',']
            + ser_str_entry(m.last()),
    decreases m.len(),
{
    if m.len() > 1 {
        let t = m.drop_first();
        lemma_ser_str_entries_snoc(t);
        assert(m.drop_last().drop_first() =~= t.drop_last());
        assert(m.drop_last()[0] == m[0]);
        assert(t.last() == m.last());
        if m.len() == 2 {
            assert(m.drop_last().len() == 1);
            assert(ser_str_entries(m.drop_last()) == ser_str_entry(m[0]));
            assert(ser_str_entries(t) == ser_str_entry(t[0]));
            assert(ser_str_entries(m) =~= ser_str_entries(m.drop_last()) + seq![',']
                + ser_str_entry(m.last()));
        } else {
            assert(m.drop_last().len() > 1);
            assert(ser_str_entries(m.drop_last()) == ser_str_entry(m[0]) + seq![',']
                + ser_str_entries(t.drop_last()));
            assert(ser_str_entries(m) =~= ser_str_entries(m.drop_last()) + seq![',']
                + ser_str_entry(m.last()));
        }
    }
}

/// The entries text grows at its end as entries are appended.
pub proof fn lemma_ser_opt_entries_snoc(m: Seq<(YarkDate, Option<u32>)>)
    requires
        m.len() > 0,
    ensures
        m.len() == 1 ==> ser_opt_entries(m) == ser_opt_entry(m[0]),
        m.len() > 1 ==> ser_opt_entries(m) == ser_opt_entries(m.drop_last()) + seq![',']
            + ser_opt_entry(m.last()),
    decreases m.len(),
{
    if m.len() > 1 {
        let t = m.drop_first();
        lemma_ser_opt_entries_snoc(t);
        assert(m.drop_last().drop_first() =~= t.drop_last());
        assert(m.drop_last()[0] == m[0]);
        assert(t.last() == m.last());
        if m.len() == 2 {
            assert(m.drop_last().len() == 1);
            assert(ser_opt_entries(m.drop_last()) == ser_opt_entry(m[0]));
            assert(ser_opt_entries(t) == ser_opt_entry(t[0]));
            assert(ser_opt_entries(m) =~= ser_opt_entries(m.drop_last()) + seq![',']
                + ser_opt_entry(m.last()));
        } else {
            assert(m.drop_last().len() > 1);
            assert(ser_opt_entries(m.drop_last()) == ser_opt_entry(m[0]) + seq![',']
                + ser_opt_entries(t.drop_last()));
            assert(ser_opt_entries(m) =~= ser_opt_entries(m.drop_last()) + seq![',']
                + ser_opt_entry(m.last()));
        }
    }
}

/// The entries text grows at its end as entries are appended.
pub proof fn lemma_ser_bool_entries_snoc(m: Seq<(YarkDate, bool)>)
    requires
        m.len() > 0,
    ensures
        m.len() == 1 ==> ser_bool_entries(m) == ser_bool_entry(m[0]),
        m.len() > 1 ==> ser_bool_entries(m) == ser_bool_entries(m.drop_last()) + seq![',']
            + ser_bool_entry(m.last()),
    decreases m.len(),
{
    if m.len() > 1 {
        let t = m.drop_first();
        lemma_ser_bool_entries_snoc(t);
        assert(m.drop_last().drop_first() =~= t.drop_last());
        assert(m.drop_last()[0] == m[0]);
        assert(t.last() == m.last());
        if m.len() == 2 {
            assert(m.drop_last().len() == 1);
            assert(ser_bool_entries(m.drop_last()) == ser_bool_entry(m[0]));
            assert(ser_bool_entries(t) == ser_bool_entry(t[0]));
            assert(ser_bool_entries(m) =~= ser_bool_entries(m.drop_last()) + seq![',']
                + ser_bool_entry(m.last()));
        } else {
            assert(m.drop_last().len() > 1);
            assert(ser_bool_entries(m.drop_last()) == ser_bool_entry(m[0]) + seq![',']
                + ser_bool_entries(t.drop_last()));
            assert(ser_bool_entries(m) =~= ser_bool_entries(m.drop_last()) + seq![',']
                + ser_bool_entry(m.last()));
        }
    }
}

/// Writes a whole string-valued series.
pub fn emit_str_series(out: &mut String, e: &Elements<String>)
    ensures
        final(out)@ == old(out)@ + ser_str_series(model_str_series(e.entries_seq())),
{
    push_char(out, '{');
    let n = e.len();
    for k in 0..n
        invariant
            n == e.entries_seq().len(),
            out@ == old(out)@ + seq!['{'] + ser_str_entries(model_str_series(e.entries_seq()).take(k as int)),
    {
        let entry = e.entry_at(k);
        if k > 0 {
            push_char(out, ',');
        }
        emit_date(out, entry.0);
        push_char(out, ':');
        emit_string(out, entry.1.as_str());
        proof {
            let m = model_str_series(e.entries_seq());
            lemma_ser_str_entries_snoc(m.take(k as int + 1));
            assert(m.take(k as int + 1).drop_last() =~= m.take(k as int));
            assert(m.take(k as int + 1).last() == m[k as int]);
            assert(m[k as int] == (entry.0, entry.1@));
            assert(out@ =~= old(out)@ + seq!['{'] + ser_str_entries(m.take(k as int + 1)));
        }
    }
    push_char(out, '}');
    proof {
        let m = model_str_series(e.entries_seq());
        assert(m.take(n as int) =~= m);
        assert(out@ =~= old(out)@ + ser_str_series(m));
    }
}

/// Writes a whole count-valued series.
pub fn emit_opt_series(out: &mut String, e: &Elements<Option<u32>>)
    ensures
        final(out)@ == old(out)@ + ser_opt_series(e.entries_seq()),
{
    push_char(out, '{');
    let n = e.len();
    for k in 0..n
        invariant
            n == e.entries_seq().len(),
            out@ == old(out)@ + seq!['{'] + ser_opt_entries(e.entries_seq().take(k as int)),
    {
        let entry = e.entry_at(k);
        if k > 0 {
            push_char(out, ',');
        }
        emit_date(out, entry.0);
        push_char(out, ':');
        emit_opt_u32(out, &entry.1);
        proof {
            let m = e.entries_seq();
            lemma_ser_opt_entries_snoc(m.take(k as int + 1));
            assert(m.take(k as int + 1).drop_last() =~= m.take(k as int));
            assert(m.take(k as int + 1).last() == m[k as int]);
            assert(m[k as int] == e.entries_seq()[k as int]);
            assert(out@ =~= old(out)@ + seq!['{'] + ser_opt_entries(m.take(k as int + 1)));
        }
    }
    push_char(out, '}');
    proof {
        let m = e.entries_seq();
        assert(m.take(n as int) =~= m);
        assert(out@ =~= old(out)@ + ser_opt_series(m));
    }
}

/// Writes a whole flag-valued series.
pub fn emit_bool_series(out: &mut String, e: &Elements<bool>)
    ensures
        final(out)@ == old(out)@ + ser_bool_series(e.entries_seq()),
{
    push_char(out, '{');
    let n = e.len();
    for k in 0..n
        invariant
            n == e.entries_seq().len(),
            out@ == old(out)@ + seq!['{'] + ser_bool_entries(e.entries_seq().take(k as int)),
    {
        let entry = e.entry_at(k);
        if k > 0 {
            push_char(out, ',');
        }
        emit_date(out, entry.0);
        push_char(out, ':');
        emit_bool(out, entry.1);
        proof {
            let m = e.entries_seq();
            lemma_ser_bool_entries_snoc(m.take(k as int + 1));
            assert(m.take(k as int + 1).drop_last() =~= m.take(k as int));
            assert(m.take(k as int + 1).last() == m[k as int]);
            assert(m[k as int] == e.entries_seq()[k as int]);
            assert(out@ =~= old(out)@ + seq!['{'] + ser_bool_entries(m.take(k as int + 1)));
        }
    }
    push_char(out, '}');
    proof {
        let m = e.entries_seq();
        assert(m.take(n as int) =~= m);
        assert(out@ =~= old(out)@ + ser_bool_series(m));
    }
}

/// Reads a whole string-valued series starting at `i`.
pub fn parse_str_series_at(s: &Vec<char>, i: usize) -> (r: Option<(Elements<String>, usize)>)
    requires
        i <= s@.len(),
    ensures
        match parse_str_series(s@, i as int) {
            Some((m, j)) => r matches Some(p) && model_str_series(p.0.entries_seq()) == m && p.0.wf() && p.1 as int == j
                && p.1 <= s@.len(),
            None => r is None,
        },
{
    if !(i < s.len() && s[i] == '{') {
        return None;
    }
    if i + 1 < s.len() && s[i + 1] == '}' {
        let e: Elements<String> = Elements::new();
        proof {
            assert(model_str_series(e.entries_seq()) =~= Seq::<(YarkDate, Seq<char>)>::empty());
        }
        return Some((e, i + 2));
    }
    let mut elems: Elements<String> = Elements::new();
    let mut cur: usize = i + 1;
    proof {
        assert(model_str_series(elems.entries_seq()) =~= Seq::<(YarkDate, Seq<char>)>::empty());
    }
    loop
        invariant
            i + 1 <= cur <= s@.len(),
            elems.wf(),
            parse_str_series(s@, i as int) == parse_str_items(s@, i as int + 1, Seq::empty()),
            parse_str_items(s@, i as int + 1, Seq::empty()) == parse_str_items(
                s@,
                cur as int,
                model_str_series(elems.entries_seq()),
            ),
        decreases s@.len() - cur,
    {
        let ghost acc0 = model_str_series(elems.entries_seq());
        let (d, j1) = match parse_date_at(s, cur) {
            None => {
                return None;
            },
            Some(p) => p,
        };
        proof {
            crate::wire::lemma_parse_date_shape(s@, cur as int);
        }
        if !(j1 < s.len() && s[j1] == ':') {
            return None;
        }
        let (v, j2) = match parse_string_at(s, j1 + 1) {
            None => {
                return None;
            },
            Some(p) => p,
        };
        proof {
            crate::wire::lemma_parse_string_shape(s@, j1 as int + 1);
            lemma_model_insert_commutes(elems.entries_seq(), d, v);
        }
        elems.insert(d, v);
        if j2 < s.len() && s[j2] == '}' {
            proof {
                assert(parse_str_items(s@, cur as int, acc0) == Some(
                    (model_str_series(elems.entries_seq()), j2 as int + 1),
                ));
            }
            return Some((elems, j2 + 1));
        }
        if j2 < s.len() && s[j2] == ',' {
            cur = j2 + 1;
        } else {
            return None;
        }
    }
}

/// Reads a whole count-valued series starting at `i`.
pub fn parse_opt_series_at(s: &Vec<char>, i: usize) -> (r: Option<(Elements<Option<u32>>, usize)>)
    requires
        i <= s@.len(),
    ensures
        match parse_opt_series(s@, i as int) {
            Some((m, j)) => r matches Some(p) && p.0.entries_seq() == m && p.0.wf() && p.1 as int == j
                && p.1 <= s@.len(),
            None => r is None,
        },
{
    if !(i < s.len() && s[i] == '{') {
        return None;
    }
    if i + 1 < s.len() && s[i + 1] == '}' {
        let e: Elements<Option<u32>> = Elements::new();
        proof {
            assert(e.entries_seq() =~= Seq::<(YarkDate, Option<u32>)>::empty());
        }
        return Some((e, i + 2));
    }
    let mut elems: Elements<Option<u32>> = Elements::new();
    let mut cur: usize = i + 1;
    proof {
        assert(elems.entries_seq() =~= Seq::<(YarkDate, Option<u32>)>::empty());
    }
    loop
        invariant
            i + 1 <= cur <= s@.len(),
            elems.wf(),
            parse_opt_series(s@, i as int) == parse_opt_items(s@, i as int + 1, Seq::empty()),
            parse_opt_items(s@, i as int + 1, Seq::empty()) == parse_opt_items(
                s@,
                cur as int,
                elems.entries_seq(),
            ),
        decreases s@.len() - cur,
    {
        let ghost acc0 = elems.entries_seq();
        let (d, j1) = match parse_date_at(s, cur) {
            None => {
                return None;
            },
            Some(p) => p,
        };
        proof {
            crate::wire::lemma_parse_date_shape(s@, cur as int);
        }
        if !(j1 < s.len() && s[j1] == ':') {
            return None;
        }
        let (v, j2) = match parse_opt_u32_at(s, j1 + 1) {
            None => {
                return None;
            },
            Some(p) => p,
        };
        proof {
            lemma_parse_opt_shape(s@, j1 as int + 1);
            
        }
        elems.insert(d, v);
        if j2 < s.len() && s[j2] == '}' {
            proof {
                assert(parse_opt_items(s@, cur as int, acc0) == Some(
                    (elems.entries_seq(), j2 as int + 1),
                ));
            }
            return Some((elems, j2 + 1));
        }
        if j2 < s.len() && s[j2] == ',' {
            cur = j2 + 1;
        } else {
            return None;
        }
    }
}

/// Reads a whole flag-valued series starting at `i`.
pub fn parse_bool_series_at(s: &Vec<char>, i: usize) -> (r: Option<(Elements<bool>, usize)>)
    requires
        i <= s@.len(),
    ensures
        match parse_bool_series(s@, i as int) {
            Some((m, j)) => r matches Some(p) && p.0.entries_seq() == m && p.0.wf() && p.1 as int == j
                && p.1 <= s@.len(),
            None => r is None,
        },
{
    if !(i < s.len() && s[i] == '{') {
        return None;
    }
    if i + 1 < s.len() && s[i + 1] == '}' {
        let e: Elements<bool> = Elements::new();
        proof {
            assert(e.entries_seq() =~= Seq::<(YarkDate, bool)>::empty());
        }
        return Some((e, i + 2));
    }
    let mut elems: Elements<bool> = Elements::new();
    let mut cur: usize = i + 1;
    proof {
        assert(elems.entries_seq() =~= Seq::<(YarkDate, bool)>::empty());
    }
    loop
        invariant
            i + 1 <= cur <= s@.len(),
            elems.wf(),
            parse_bool_series(s@, i as int) == parse_bool_items(s@, i as int + 1, Seq::empty()),
            parse_bool_items(s@, i as int + 1, Seq::empty()) == parse_bool_items(
                s@,
                cur as int,
                elems.entries_seq(),
            ),
        decreases s@.len() - cur,
    {
        let ghost acc0 = elems.entries_seq();
        let (d, j1) = match parse_date_at(s, cur) {
            None => {
                return None;
            },
            Some(p) => p,
        };
        proof {
            crate::wire::lemma_parse_date_shape(s@, cur as int);
        }
        if !(j1 < s.len() && s[j1] == ':') {
            return None;
        }
        let (v, j2) = match parse_bool_at(s, j1 + 1) {
            None => {
                return None;
            },
            Some(p) => p,
        };
        proof {
            lemma_parse_bool_shape(s@, j1 as int + 1);
            
        }
        elems.insert(d, v);
        if j2 < s.len() && s[j2] == '}' {
            proof {
                assert(parse_bool_items(s@, cur as int, acc0) == Some(
                    (elems.entries_seq(), j2 as int + 1),
                ));
            }
            return Some((elems, j2 + 1));
        }
        if j2 < s.len() && s[j2] == ',' {
            cur = j2 + 1;
        } else {
            return None;
        }
    }
}

/// Consuming a fixed piece of punctuation or key text.
pub open spec fn parse_lit(s: Seq<char>, i: int, lit: Seq<char>) -> Option<int> {
    if matches_at(s, i, lit) {
        Some(i + lit.len())
    } else {
        None
    }
}

/// Reads a fixed piece of text at `i`.
pub fn parse_lit_at(s: &Vec<char>, i: usize, lit: &str) -> (r: Option<usize>)
    requires
        i <= s@.len(),
    ensures
        match parse_lit(s@, i as int, lit@) {
            Some(j) => r matches Some(jj) && jj as int == j && jj <= s@.len(),
            None => r is None,
        },
{
    if match_lit(s, i, lit) {
        let n = lit.unicode_len();
        let slen = s.len();
        proof {
            assert(i + n <= slen);
        }
        Some(i + n)
    } else {
        None
    }
}

/// An optional string in the text form: `null` when absent.
pub open spec fn ser_opt_str(v: Option<Seq<char>>) -> Seq<char> {
    match v {
        None => "null"@,
        Some(t) => spec_ser_string(t),
    }
}

/// Reading an optional string.
pub open spec fn parse_opt_str(s: Seq<char>, i: int) -> Option<(Option<Seq<char>>, int)> {
    if matches_at(s, i, "null"@) {
        Some((None, i + 4))
    } else {
        match spec_parse_string(s, i) {
            Some((t, j)) => Some((Some(t), j)),
            None => None,
        }
    }
}

/// Reading a written optional string back.
pub proof fn lemma_parse_ser_opt_str(s: Seq<char>, i: int, v: Option<Seq<char>>)
    requires
        matches_at(s, i, ser_opt_str(v)),
    ensures
        parse_opt_str(s, i) == Some((v, i + ser_opt_str(v).len())),
{
    reveal_strlit("null");
    match v {
        None => {
            assert("null"@.len() == 4);
        },
        Some(t) => {
            assert(!matches_at(s, i, "null"@)) by {
                if matches_at(s, i, "null"@) {
                    lemma_matches_at_index(s, i, "null"@, 0);
                    lemma_matches_at_index(s, i, ser_opt_str(v), 0);
                    assert(ser_opt_str(v)[0] == '"');
                }
            }
            lemma_parse_ser_string(s, i, t);
        },
    }
}

/// A successful optional-string read moved the position forward.
pub proof fn lemma_parse_opt_str_shape(s: Seq<char>, i: int)
    requires
        0 <= i,
    ensures
        parse_opt_str(s, i) matches Some((v, j)) ==> i < j <= s.len(),
{
    reveal_strlit("null");
    crate::wire::lemma_parse_string_shape(s, i);
}

/// Reads an optional string starting at `i`.
pub fn parse_opt_str_at(s: &Vec<char>, i: usize) -> (r: Option<(Option<String>, usize)>)
    requires
        i <= s@.len(),
    ensures
        match parse_opt_str(s@, i as int) {
            Some((v, j)) => r matches Some(p) && (match (v, p.0) {
                (None, None) => true,
                (Some(t), Some(x)) => x@ == t,
                _ => false,
            }) && p.1 as int == j && p.1 <= s@.len(),
            None => r is None,
        },
{
    proof {
        reveal_strlit("null");
    }
    if match_lit(s, i, "null") {
        let slen = s.len();
        proof {
            assert(i + 4 <= slen);
        }
        return Some((None, i + 4));
    }
    match parse_string_at(s, i) {
        None => None,
        Some((t, j)) => Some((Some(t), j)),
    }
}

/// Writes an optional string.
pub fn emit_opt_str(out: &mut String, v: &Option<String>)
    ensures
        final(out)@ == old(out)@ + ser_opt_str(match *v {
            None => None,
            Some(t) => Some(t@),
        }),
{
    match v {
        None => {
            out.append("null");
        },
        Some(t) => {
            emit_string(out, t.as_str());
        },
    }
}

/// A note as mathematical values.
pub struct NoteModel {
    pub id: Seq<char>,
    pub timestamp: u32,
    pub title: Seq<char>,
    pub description: Option<Seq<char>>,
}

/// The model of one note.
pub open spec fn note_model(n: crate::note::Note) -> NoteModel {
    NoteModel {
        id: n.id@,
        timestamp: n.timestamp,
        title: n.title@,
        description: match n.description {
            None => None,
            Some(t) => Some(t@),
        },
    }
}

/// The models of a sequence of notes.
pub open spec fn model_notes(s: Seq<crate::note::Note>) -> Seq<NoteModel> {
    s.map_values(|n: crate::note::Note| note_model(n))
}

/// Identifiers are unique across note models.
pub open spec fn note_models_unique(s: Seq<NoteModel>) -> bool {
    forall|i: int, j: int| 0 <= i < j < s.len() ==> (#[trigger] s[i]).id != (#[trigger] s[j]).id
}

/// One note in the text form.
pub open spec fn ser_note(n: NoteModel) -> Seq<char> {
    "{\"id\":"@ + spec_ser_string(n.id) + ",\"timestamp\":"@ + spec_dec_digits(
        n.timestamp as int,
    ) + ",\"title\":"@ + spec_ser_string(n.title) + ",\"description\":"@ + ser_opt_str(
        n.description,
    ) + seq!['}']
}

/// Reading one note.
pub open spec fn parse_note(s: Seq<char>, i: int) -> Option<(NoteModel, int)> {
    match parse_lit(s, i, "{\"id\":"@) {
        None => None,
        Some(i1) => match spec_parse_string(s, i1) {
            None => None,
            Some((id, i2)) => match parse_lit(s, i2, ",\"timestamp\":"@) {
                None => None,
                Some(i3) => match spec_parse_u32(s, i3) {
                    None => None,
                    Some((ts, i4)) => match parse_lit(s, i4, ",\"title\":"@) {
                        None => None,
                        Some(i5) => match spec_parse_string(s, i5) {
                            None => None,
                            Some((title, i6)) => match parse_lit(s, i6, ",\"description\":"@) {
                                None => None,
                                Some(i7) => match parse_opt_str(s, i7) {
                                    None => None,
                                    Some((desc, i8)) => if i8 < s.len() && s[i8] == '}' {
                                        Some(
                                            (
                                                NoteModel {
                                                    id: id,
                                                    timestamp: ts,
                                                    title: title,
                                                    description: desc,
                                                },
                                                i8 + 1,
                                            ),
                                        )
                                    } else {
                                        None
                                    },
                                },
                            },
                        },
                    },
                },
            },
        },
    }
}

/// Reading a written note back yields it again.
pub proof fn lemma_parse_ser_note(s: Seq<char>, i: int, n: NoteModel)
    requires
        matches_at(s, i, ser_note(n)),
    ensures
        parse_note(s, i) == Some((n, i + ser_note(n).len())),
{
    reveal_strlit("{\"id\":");
    reveal_strlit(",\"timestamp\":");
    reveal_strlit(",\"title\":");
    reveal_strlit(",\"description\":");
    let l1 = "{\"id\":"@;
    let p1 = spec_ser_string(n.id);
    let l2 = ",\"timestamp\":"@;
    let p2 = spec_dec_digits(n.timestamp as int);
    let l3 = ",\"title\":"@;
    let p3 = spec_ser_string(n.title);
    let l4 = ",\"description\":"@;
    let p4 = ser_opt_str(n.description);
    crate::numtext::lemma_pad_shape(
        n.timestamp as int,
        crate::numtext::spec_ndigits(n.timestamp as int, 10),
        10,
    );
    assert(ser_note(n) =~= l1 + (p1 + (l2 + (p2 + (l3 + (p3 + (l4 + (p4 + seq!['}']))))))));
    lemma_matches_at_split(s, i, l1, p1 + (l2 + (p2 + (l3 + (p3 + (l4 + (p4 + seq!['}'])))))));
    let i1 = i + l1.len();
    lemma_matches_at_split(s, i1, p1, l2 + (p2 + (l3 + (p3 + (l4 + (p4 + seq!['}']))))));
    lemma_parse_ser_string(s, i1, n.id);
    let i2 = i1 + p1.len();
    lemma_matches_at_split(s, i2, l2, p2 + (l3 + (p3 + (l4 + (p4 + seq!['}'])))));
    let i3 = i2 + l2.len();
    lemma_matches_at_split(s, i3, p2, l3 + (p3 + (l4 + (p4 + seq!['}']))));
    let i4 = i3 + p2.len();
    lemma_matches_at_split(s, i4, l3, p3 + (l4 + (p4 + seq!['}'])));
    lemma_matches_at_index(s, i4, l3, 0);
    assert(s[i4] == ',');
    assert(!spec_is_dec_digit(','));
    lemma_parse_ser_u32(s, i3, n.timestamp);
    let i5 = i4 + l3.len();
    lemma_matches_at_split(s, i5, p3, l4 + (p4 + seq!['}']));
    lemma_parse_ser_string(s, i5, n.title);
    let i6 = i5 + p3.len();
    lemma_matches_at_split(s, i6, l4, p4 + seq!['}']);
    let i7 = i6 + l4.len();
    lemma_matches_at_split(s, i7, p4, seq!['}']);
    lemma_parse_ser_opt_str(s, i7, n.description);
    let i8 = i7 + p4.len();
    lemma_matches_at_index(s, i8, seq!['}'], 0);
}

/// Where a stored note joins the collection: it replaces the first note
/// carrying its identifier, or joins at the end.
pub open spec fn spec_note_insert(acc: Seq<NoteModel>, n: NoteModel) -> Seq<NoteModel>
    decreases acc.len(),
{
    if acc.len() == 0 {
        seq![n]
    } else if acc[0].id == n.id {
        seq![n] + acc.drop_first()
    } else {
        seq![acc[0]] + spec_note_insert(acc.drop_first(), n)
    }
}

/// With the matching identifier at `i` and nowhere earlier, the insertion
/// is an update in place.
pub proof fn lemma_note_insert_char(acc: Seq<NoteModel>, n: NoteModel, i: int)
    requires
        0 <= i < acc.len(),
        acc[i].id == n.id,
        forall|k: int| 0 <= k < i ==> (#[trigger] acc[k]).id != n.id,
    ensures
        spec_note_insert(acc, n) == acc.update(i, n),
    decreases acc.len(),
{
    if i == 0 {
        assert(seq![n] + acc.drop_first() =~= acc.update(0, n));
    } else {
        let t = acc.drop_first();
        assert(forall|k: int| 0 <= k < i - 1 ==> (#[trigger] t[k]).id != n.id);
        lemma_note_insert_char(t, n, i - 1);
        assert(seq![acc[0]] + t.update(i - 1, n) =~= acc.update(i, n));
    }
}

/// With no matching identifier present, the insertion appends.
pub proof fn lemma_note_insert_fresh(acc: Seq<NoteModel>, n: NoteModel)
    requires
        forall|k: int| 0 <= k < acc.len() ==> (#[trigger] acc[k]).id != n.id,
    ensures
        spec_note_insert(acc, n) == acc.push(n),
    decreases acc.len(),
{
    if acc.len() == 0 {
        assert(seq![n] =~= acc.push(n));
    } else {
        let t = acc.drop_first();
        assert(forall|k: int| 0 <= k < t.len() ==> (#[trigger] t[k]).id != n.id);
        lemma_note_insert_fresh(t, n);
        assert(seq![acc[0]] + t.push(n) =~= acc.push(n));
    }
}

/// The comma-joined notes of a list.
pub open spec fn ser_note_items(s: Seq<NoteModel>) -> Seq<char>
    decreases s.len(),
{
    if s.len() == 0 {
        Seq::empty()
    } else if s.len() == 1 {
        ser_note(s[0])
    } else {
        ser_note(s[0]) + seq![','] + ser_note_items(s.drop_first())
    }
}

/// A note list in the text form.
pub open spec fn ser_notes(s: Seq<NoteModel>) -> Seq<char> {
    seq!['['] + ser_note_items(s) + seq![']']
}

/// Reading the notes of a list, folded by keyed insertion so that a
/// repeated identifier keeps its last note.
pub open spec fn parse_note_items(s: Seq<char>, i: int, acc: Seq<NoteModel>) -> Option<
    (Seq<NoteModel>, int),
>
    decreases s.len() - i,
{
    match parse_note(s, i) {
        None => None,
        Some((n, j)) => {
            let acc2 = spec_note_insert(acc, n);
            if j < s.len() && s[j] == ']' {
                Some((acc2, j + 1))
            } else if j < s.len() && s[j] == ',' && i < j + 1 <= s.len() {
                parse_note_items(s, j + 1, acc2)
            } else {
                None
            }
        },
    }
}

/// Reading a whole note list.
pub open spec fn parse_notes(s: Seq<char>, i: int) -> Option<(Seq<NoteModel>, int)> {
    if !(0 <= i && i < s.len() && s[i] == '[') {
        None
    } else if i + 1 < s.len() && s[i + 1] == ']' {
        Some((Seq::empty(), i + 2))
    } else {
        parse_note_items(s, i + 1, Seq::empty())
    }
}

/// A successful note read moved the position forward, within bounds.
pub proof fn lemma_parse_note_shape(s: Seq<char>, i: int)
    requires
        0 <= i,
    ensures
        parse_note(s, i) matches Some((n, j)) ==> i < j <= s.len(),
{
    reveal_strlit("{\"id\":");
    reveal_strlit(",\"timestamp\":");
    reveal_strlit(",\"title\":");
    reveal_strlit(",\"description\":");
    if parse_note(s, i) is Some {
        let i1 = parse_lit(s, i, "{\"id\":"@).unwrap();
        crate::wire::lemma_parse_string_shape(s, i1);
        let (id, i2) = spec_parse_string(s, i1).unwrap();
        let i3 = parse_lit(s, i2, ",\"timestamp\":"@).unwrap();
        crate::wire::lemma_digit_run_bounds(s, i3);
        let (ts, i4) = spec_parse_u32(s, i3).unwrap();
        let i5 = parse_lit(s, i4, ",\"title\":"@).unwrap();
        crate::wire::lemma_parse_string_shape(s, i5);
        let (title, i6) = spec_parse_string(s, i5).unwrap();
        let i7 = parse_lit(s, i6, ",\"description\":"@).unwrap();
        lemma_parse_opt_str_shape(s, i7);
    }
}

/// Reading written notes back extends the fold by exactly those notes,
/// whose identifiers are fresh for the accumulator.
pub proof fn lemma_parse_ser_note_items(
    s: Seq<char>,
    i: int,
    acc: Seq<NoteModel>,
    m: Seq<NoteModel>,
)
    requires
        m.len() > 0,
        note_models_unique(acc + m),
        matches_at(s, i, ser_note_items(m) + seq![']']),
    ensures
        parse_note_items(s, i, acc) == Some((acc + m, i + ser_note_items(m).len() + 1)),
    decreases m.len(),
{
    let e = m[0];
    let etxt = ser_note(e);
    assert forall|k: int| 0 <= k < acc.len() implies (#[trigger] acc[k]).id != e.id by {
        assert((acc + m)[k] == acc[k]);
        assert((acc + m)[acc.len() as int] == e);
    }
    lemma_note_insert_fresh(acc, e);
    assert(spec_note_insert(acc, e) == acc.push(e));
    assert(acc.push(e) =~= acc + seq![e]);
    if m.len() == 1 {
        assert(ser_note_items(m) == etxt);
        assert(ser_note_items(m) + seq![']'] =~= etxt + seq![']']);
        lemma_matches_at_split(s, i, etxt, seq![']']);
        lemma_parse_ser_note(s, i, e);
        lemma_matches_at_index(s, i + etxt.len(), seq![']'], 0);
        assert(acc + m =~= acc + seq![e]);
    } else {
        let rest = m.drop_first();
        assert(ser_note_items(m) == etxt + seq![','] + ser_note_items(rest));
        assert(ser_note_items(m) + seq![']'] =~= etxt + (seq![','] + (ser_note_items(rest)
            + seq![']'])));
        lemma_matches_at_split(s, i, etxt, seq![','] + (ser_note_items(rest) + seq![']']));
        lemma_parse_ser_note(s, i, e);
        let i1 = i + etxt.len();
        lemma_matches_at_split(s, i1, seq![','], ser_note_items(rest) + seq![']']);
        lemma_matches_at_index(s, i1, seq![','], 0);
        let i2 = i1 + 1;
        assert(note_models_unique((acc + seq![e]) + rest)) by {
            assert((acc + seq![e]) + rest =~= acc + m);
        }
        lemma_parse_ser_note_items(s, i2, acc + seq![e], rest);
        assert((acc + seq![e]) + rest =~= acc + m);
    }
}

/// Reading a written note list back yields its notes again.
pub proof fn lemma_parse_ser_notes(s: Seq<char>, i: int, m: Seq<NoteModel>)
    requires
        note_models_unique(m),
        matches_at(s, i, ser_notes(m)),
    ensures
        parse_notes(s, i) == Some((m, i + ser_notes(m).len())),
{
    assert(ser_notes(m) =~= seq!['['] + (ser_note_items(m) + seq![']']));
    lemma_matches_at_split(s, i, seq!['['], ser_note_items(m) + seq![']']);
    lemma_matches_at_index(s, i, seq!['['], 0);
    if m.len() == 0 {
        assert(ser_note_items(m) == Seq::<char>::empty());
        lemma_matches_at_index(s, i + 1, ser_note_items(m) + seq![']'], 0);
        assert(s[i + 1] == ']');
    } else {
        assert(Seq::<NoteModel>::empty() + m =~= m);
        lemma_parse_ser_note_items(s, i + 1, Seq::empty(), m);
        reveal_strlit("{\"id\":");
        let etxt = ser_note(m[0]);
        assert(ser_note_items(m) + seq![']'] =~= etxt + ((ser_note_items(m) + seq![
            ']',
        ]).skip(etxt.len() as int))) by {
            if m.len() == 1 {
                assert(ser_note_items(m) == ser_note(m[0]));
            }
        }
        lemma_matches_at_split(s, i + 1, etxt, (ser_note_items(m) + seq![']']).skip(
            etxt.len() as int,
        ));
        lemma_matches_at_index(s, i + 1, etxt, 0);
        assert(etxt[0] == '{');
        assert(s[i + 1] == '{');
    }
}

/// Writes one note.
pub fn emit_note(out: &mut String, n: &crate::note::Note)
    ensures
        final(out)@ == old(out)@ + ser_note(note_model(*n)),
{
    out.append("{\"id\":");
    emit_string(out, n.id.as_str());
    out.append(",\"timestamp\":");
    emit_u32(out, n.timestamp);
    out.append(",\"title\":");
    emit_string(out, n.title.as_str());
    out.append(",\"description\":");
    emit_opt_str(out, &n.description);
    push_char(out, '}');
    proof {
        assert(out@ =~= old(out)@ + ser_note(note_model(*n)));
    }
}

/// The note-list text grows at its end as notes are appended.
pub proof fn lemma_ser_note_items_snoc(m: Seq<NoteModel>)
    requires
        m.len() > 0,
    ensures
        m.len() == 1 ==> ser_note_items(m) == ser_note(m[0]),
        m.len() > 1 ==> ser_note_items(m) == ser_note_items(m.drop_last()) + seq![',']
            + ser_note(m.last()),
    decreases m.len(),
{
    if m.len() > 1 {
        let t = m.drop_first();
        lemma_ser_note_items_snoc(t);
        assert(m.drop_last().drop_first() =~= t.drop_last());
        assert(m.drop_last()[0] == m[0]);
        assert(t.last() == m.last());
        if m.len() == 2 {
            assert(m.drop_last().len() == 1);
            assert(ser_note_items(m.drop_last()) == ser_note(m[0]));
            assert(ser_note_items(t) == ser_note(t[0]));
            assert(ser_note_items(m) =~= ser_note_items(m.drop_last()) + seq![','] + ser_note(
                m.last(),
            ));
        } else {
            assert(m.drop_last().len() > 1);
            assert(ser_note_items(m.drop_last()) == ser_note(m[0]) + seq![','] + ser_note_items(
                t.drop_last(),
            ));
            assert(ser_note_items(m) =~= ser_note_items(m.drop_last()) + seq![','] + ser_note(
                m.last(),
            ));
        }
    }
}

/// Writes a whole note list.
pub fn emit_notes(out: &mut String, ns: &crate::note::Notes)
    ensures
        final(out)@ == old(out)@ + ser_notes(model_notes(ns.notes_seq())),
{
    push_char(out, '[');
    let n = ns.len();
    for k in 0..n
        invariant
            n == ns.notes_seq().len(),
            out@ == old(out)@ + seq!['['] + ser_note_items(
                model_notes(ns.notes_seq()).take(k as int),
            ),
    {
        let entry = ns.note_at(k);
        if k > 0 {
            push_char(out, ',');
        }
        emit_note(out, entry);
        proof {
            let m = model_notes(ns.notes_seq());
            lemma_ser_note_items_snoc(m.take(k as int + 1));
            assert(m.take(k as int + 1).drop_last() =~= m.take(k as int));
            assert(m.take(k as int + 1).last() == m[k as int]);
            assert(m[k as int] == note_model(ns.notes_seq()[k as int]));
            assert(out@ =~= old(out)@ + seq!['['] + ser_note_items(m.take(k as int + 1)));
        }
    }
    push_char(out, ']');
    proof {
        let m = model_notes(ns.notes_seq());
        assert(m.take(n as int) =~= m);
        assert(out@ =~= old(out)@ + ser_notes(m));
    }
}

/// Reads one note starting at `i`.
pub fn parse_note_at(s: &Vec<char>, i: usize) -> (r: Option<(crate::note::Note, usize)>)
    requires
        i <= s@.len(),
    ensures
        match parse_note(s@, i as int) {
            Some((m, j)) => r matches Some(p) && note_model(p.0) == m && p.1 as int == j && p.1
                <= s@.len(),
            None => r is None,
        },
{
    let i1 = match parse_lit_at(s, i, "{\"id\":") {
        None => {
            return None;
        },
        Some(x) => x,
    };
    let (id, i2) = match parse_string_at(s, i1) {
        None => {
            return None;
        },
        Some(p) => p,
    };
    let i3 = match parse_lit_at(s, i2, ",\"timestamp\":") {
        None => {
            return None;
        },
        Some(x) => x,
    };
    let (ts, i4) = match parse_u32_at(s, i3) {
        None => {
            return None;
        },
        Some(p) => p,
    };
    let i5 = match parse_lit_at(s, i4, ",\"title\":") {
        None => {
            return None;
        },
        Some(x) => x,
    };
    let (title, i6) = match parse_string_at(s, i5) {
        None => {
            return None;
        },
        Some(p) => p,
    };
    let i7 = match parse_lit_at(s, i6, ",\"description\":") {
        None => {
            return None;
        },
        Some(x) => x,
    };
    let (desc, i8) = match parse_opt_str_at(s, i7) {
        None => {
            return None;
        },
        Some(p) => p,
    };
    if !(i8 < s.len() && s[i8] == '}') {
        return None;
    }
    let n = crate::note::Note { id, timestamp: ts, title, description: desc };
    Some((n, i8 + 1))
}

/// Reads a whole note list starting at `i`.
pub fn parse_notes_at(s: &Vec<char>, i: usize) -> (r: Option<(crate::note::Notes, usize)>)
    requires
        i <= s@.len(),
    ensures
        match parse_notes(s@, i as int) {
            Some((m, j)) => r matches Some(p) && model_notes(p.0.notes_seq()) == m && p.0.wf()
                && p.1 as int == j && p.1 <= s@.len(),
            None => r is None,
        },
{
    if !(i < s.len() && s[i] == '[') {
        return None;
    }
    if i + 1 < s.len() && s[i + 1] == ']' {
        let ns = crate::note::Notes::new();
        proof {
            assert(model_notes(ns.notes_seq()) =~= Seq::<NoteModel>::empty());
        }
        return Some((ns, i + 2));
    }
    let mut notes = crate::note::Notes::new();
    let mut cur: usize = i + 1;
    proof {
        assert(model_notes(notes.notes_seq()) =~= Seq::<NoteModel>::empty());
    }
    loop
        invariant
            i + 1 <= cur <= s@.len(),
            notes.wf(),
            parse_notes(s@, i as int) == parse_note_items(s@, i as int + 1, Seq::empty()),
            parse_note_items(s@, i as int + 1, Seq::empty()) == parse_note_items(
                s@,
                cur as int,
                model_notes(notes.notes_seq()),
            ),
        decreases s@.len() - cur,
    {
        let ghost acc0 = model_notes(notes.notes_seq());
        let (n, j) = match parse_note_at(s, cur) {
            None => {
                return None;
            },
            Some(p) => p,
        };
        proof {
            lemma_parse_note_shape(s@, cur as int);
        }
        let ghost nm = note_model(n);
        let ghost old_notes = notes;
        notes.insert(n);
        proof {
            let ns0 = old_notes.notes_seq();
            assert(acc0.len() == ns0.len());
            assert forall|k: int| 0 <= k < ns0.len() implies (#[trigger] acc0[k]).id
                == ns0[k].id@ by {
                assert(acc0[k] == note_model(ns0[k]));
            }
            if old_notes.spec_has(nm.id) {
                let wi = choose|wi: int|
                    #![auto]
                    0 <= wi < ns0.len() && ns0[wi].id@ == nm.id && notes.notes_seq()
                        == ns0.update(wi, n);
                assert forall|k: int| 0 <= k < wi implies (#[trigger] acc0[k]).id != nm.id by {
                    assert(ns0[k].id@ != ns0[wi].id@);
                }
                lemma_note_insert_char(acc0, nm, wi);
                assert(model_notes(ns0.update(wi, n)) =~= acc0.update(wi, nm));
            } else {
                assert forall|k: int| 0 <= k < acc0.len() implies (#[trigger] acc0[k]).id
                    != nm.id by {
                    if acc0[k].id == nm.id {
                        assert(ns0[k].id@ == nm.id);
                        assert(old_notes.spec_has(nm.id));
                    }
                }
                lemma_note_insert_fresh(acc0, nm);
                assert(model_notes(ns0.push(n)) =~= acc0.push(nm));
            }
            assert(model_notes(notes.notes_seq()) == spec_note_insert(acc0, nm));
        }
        if j < s.len() && s[j] == ']' {
            proof {
                assert(parse_note_items(s@, cur as int, acc0) == Some(
                    (model_notes(notes.notes_seq()), j as int + 1),
                ));
            }
            return Some((notes, j + 1));
        }
        if j < s.len() && s[j] == ',' {
            cur = j + 1;
        } else {
            return None;
        }
    }
}


/// A tracked video as mathematical values.
pub struct VideoModel {
    pub id: Seq<char>,
    pub uploaded: YarkDate,
    pub width: u32,
    pub height: u32,
    pub title: Seq<(YarkDate, Seq<char>)>,
    pub description: Seq<(YarkDate, Seq<char>)>,
    pub views: Seq<(YarkDate, Option<u32>)>,
    pub likes: Seq<(YarkDate, Option<u32>)>,
    pub thumbnail: Seq<(YarkDate, Seq<char>)>,
    pub deleted: Seq<(YarkDate, bool)>,
    pub notes: Seq<NoteModel>,
}

/// The model of one video.
pub open spec fn video_model(v: crate::video::Video) -> VideoModel {
    VideoModel {
        id: v.id@,
        uploaded: v.uploaded,
        width: v.width,
        height: v.height,
        title: model_str_series(v.title.entries_seq()),
        description: model_str_series(v.description.entries_seq()),
        views: v.views.entries_seq(),
        likes: v.likes.entries_seq(),
        thumbnail: model_str_series(v.thumbnail.entries_seq()),
        deleted: v.deleted.entries_seq(),
        notes: model_notes(v.notes.notes_seq()),
    }
}

/// Dates sorted and real throughout, and note identifiers unique: what a
/// well-formed video's model looks like.
pub open spec fn video_model_wf(v: VideoModel) -> bool {
    &&& v.uploaded.wf()
    &&& entries_sorted(v.title) && (forall|k: int|
        0 <= k < v.title.len() ==> (#[trigger] v.title[k]).0.wf())
    &&& entries_sorted(v.description) && (forall|k: int|
        0 <= k < v.description.len() ==> (#[trigger] v.description[k]).0.wf())
    &&& entries_sorted(v.views) && (forall|k: int|
        0 <= k < v.views.len() ==> (#[trigger] v.views[k]).0.wf())
    &&& entries_sorted(v.likes) && (forall|k: int|
        0 <= k < v.likes.len() ==> (#[trigger] v.likes[k]).0.wf())
    &&& entries_sorted(v.thumbnail) && (forall|k: int|
        0 <= k < v.thumbnail.len() ==> (#[trigger] v.thumbnail[k]).0.wf())
    &&& entries_sorted(v.deleted) && (forall|k: int|
        0 <= k < v.deleted.len() ==> (#[trigger] v.deleted[k]).0.wf())
    &&& note_models_unique(v.notes)
}

/// A well-formed video has a well-formed model.
pub proof fn lemma_video_model_wf(v: crate::video::Video)
    requires
        v.wf(),
    ensures
        video_model_wf(video_model(v)),
{
    let m = video_model(v);
    assert forall|k: int| 0 <= k < m.title.len() implies (#[trigger] m.title[k]).0
        == v.title.entries_seq()[k].0 by {}
    assert forall|k: int| 0 <= k < m.description.len() implies (#[trigger] m.description[k]).0
        == v.description.entries_seq()[k].0 by {}
    assert forall|k: int| 0 <= k < m.thumbnail.len() implies (#[trigger] m.thumbnail[k]).0
        == v.thumbnail.entries_seq()[k].0 by {}
    assert forall|a: int, b: int| 0 <= a < b < m.title.len() implies (
    #[trigger] m.title[a]).0.spec_lt((#[trigger] m.title[b]).0) by {
        assert(v.title.entries_seq()[a].0.spec_lt(v.title.entries_seq()[b].0));
    }
    assert forall|a: int, b: int| 0 <= a < b < m.description.len() implies (
    #[trigger] m.description[a]).0.spec_lt((#[trigger] m.description[b]).0) by {
        assert(v.description.entries_seq()[a].0.spec_lt(v.description.entries_seq()[b].0));
    }
    assert forall|a: int, b: int| 0 <= a < b < m.thumbnail.len() implies (
    #[trigger] m.thumbnail[a]).0.spec_lt((#[trigger] m.thumbnail[b]).0) by {
        assert(v.thumbnail.entries_seq()[a].0.spec_lt(v.thumbnail.entries_seq()[b].0));
    }
    assert forall|a: int, b: int| 0 <= a < b < m.notes.len() implies (#[trigger] m.notes[a]).id
        != (#[trigger] m.notes[b]).id by {
        assert(m.notes[a].id == v.notes.notes_seq()[a].id@);
        assert(m.notes[b].id == v.notes.notes_seq()[b].id@);
    }
}


/// The last third of a video's text: thumbnail, deletion flags, notes.
pub open spec fn ser_video_tail2(v: VideoModel) -> Seq<char> {
    ",\"thumbnail\":"@ + ser_str_series(v.thumbnail) + ",\"deleted\":"@ + ser_bool_series(
        v.deleted,
    ) + ",\"notes\":"@ + ser_notes(v.notes) + seq!['}']
}

/// The middle third of a video's text: description and the two counts.
pub open spec fn ser_video_tail1(v: VideoModel) -> Seq<char> {
    ",\"description\":"@ + ser_str_series(v.description) + ",\"views\":"@ + ser_opt_series(
        v.views,
    ) + ",\"likes\":"@ + ser_opt_series(v.likes) + ser_video_tail2(v)
}

/// One video in the text form.
#[verifier::opaque]
pub open spec fn ser_video(v: VideoModel) -> Seq<char> {
    "{\"id\":"@ + spec_ser_string(v.id) + ",\"uploaded\":"@ + spec_ser_date(v.uploaded)
        + ",\"width\":"@ + spec_dec_digits(v.width as int) + ",\"height\":"@ + spec_dec_digits(
        v.height as int,
    ) + ",\"title\":"@ + ser_str_series(v.title) + ser_video_tail1(v)
}

/// Reading one video.
#[verifier::opaque]
pub open spec fn parse_video(s: Seq<char>, i: int) -> Option<(VideoModel, int)> {
    match parse_lit(s, i, "{\"id\":"@) {
        None => None,
        Some(i1) => match spec_parse_string(s, i1) {
            None => None,
            Some((id, i2)) => match parse_lit(s, i2, ",\"uploaded\":"@) {
                None => None,
                Some(i3) => match spec_parse_date(s, i3) {
                    None => None,
                    Some((uploaded, i4)) => match parse_lit(s, i4, ",\"width\":"@) {
                        None => None,
                        Some(i5) => match spec_parse_u32(s, i5) {
                            None => None,
                            Some((width, i6)) => match parse_lit(s, i6, ",\"height\":"@) {
                                None => None,
                                Some(i7) => match spec_parse_u32(s, i7) {
                                    None => None,
                                    Some((height, i8)) => match parse_lit(s, i8, ",\"title\":"@) {
                                        None => None,
                                        Some(i9) => match parse_str_series(s, i9) {
                                            None => None,
                                            Some((title, i10)) => parse_video_rest(
                                                s,
                                                i10,
                                                id,
                                                uploaded,
                                                width,
                                                height,
                                                title,
                                            ),
                                        },
                                    },
                                },
                            },
                        },
                    },
                },
            },
        },
    }
}

/// The middle fields of a video, from `description` through `likes`.
pub open spec fn parse_video_rest(
    s: Seq<char>,
    i10: int,
    id: Seq<char>,
    uploaded: YarkDate,
    width: u32,
    height: u32,
    title: Seq<(YarkDate, Seq<char>)>,
) -> Option<(VideoModel, int)> {
    match parse_lit(s, i10, ",\"description\":"@) {
        None => None,
        Some(i11) => match parse_str_series(s, i11) {
            None => None,
            Some((description, i12)) => match parse_lit(s, i12, ",\"views\":"@) {
                None => None,
                Some(i13) => match parse_opt_series(s, i13) {
                    None => None,
                    Some((views, i14)) => match parse_lit(s, i14, ",\"likes\":"@) {
                        None => None,
                        Some(i15) => match parse_opt_series(s, i15) {
                            None => None,
                            Some((likes, i16)) => parse_video_rest2(
                                s,
                                i16,
                                id,
                                uploaded,
                                width,
                                height,
                                title,
                                description,
                                views,
                                likes,
                            ),
                        },
                    },
                },
            },
        },
    }
}

/// The last fields of a video, from `thumbnail` to the closing brace.
pub open spec fn parse_video_rest2(
    s: Seq<char>,
    i16: int,
    id: Seq<char>,
    uploaded: YarkDate,
    width: u32,
    height: u32,
    title: Seq<(YarkDate, Seq<char>)>,
    description: Seq<(YarkDate, Seq<char>)>,
    views: Seq<(YarkDate, Option<u32>)>,
    likes: Seq<(YarkDate, Option<u32>)>,
) -> Option<(VideoModel, int)> {
    match parse_lit(s, i16, ",\"thumbnail\":"@) {
        None => None,
        Some(i17) => match parse_str_series(s, i17) {
            None => None,
            Some((thumbnail, i18)) => match parse_lit(s, i18, ",\"deleted\":"@) {
                None => None,
                Some(i19) => match parse_bool_series(s, i19) {
                    None => None,
                    Some((deleted, i20)) => match parse_lit(s, i20, ",\"notes\":"@) {
                        None => None,
                        Some(i21) => match parse_notes(s, i21) {
                            None => None,
                            Some((notes, i22)) => if i22 < s.len() && s[i22] == '}' {
                                Some(
                                    (
                                        VideoModel {
                                            id,
                                            uploaded,
                                            width,
                                            height,
                                            title,
                                            description,
                                            views,
                                            likes,
                                            thumbnail,
                                            deleted,
                                            notes,
                                        },
                                        i22 + 1,
                                    ),
                                )
                            } else {
                                None
                            },
                        },
                    },
                },
            },
        },
    }
}

/// The last third of a written video reads back.
#[verifier::rlimit(100)]
pub proof fn lemma_parse_ser_video_rest2(s: Seq<char>, i16: int, v: VideoModel)
    requires
        video_model_wf(v),
        matches_at(s, i16, ser_video_tail2(v)),
    ensures
        parse_video_rest2(
            s,
            i16,
            v.id,
            v.uploaded,
            v.width,
            v.height,
            v.title,
            v.description,
            v.views,
            v.likes,
        ) == Some((v, i16 + ser_video_tail2(v).len())),
{
    reveal_strlit(",\"thumbnail\":");
    reveal_strlit(",\"deleted\":");
    reveal_strlit(",\"notes\":");
    let l9 = ",\"thumbnail\":"@;
    let p9 = ser_str_series(v.thumbnail);
    let l10 = ",\"deleted\":"@;
    let p10 = ser_bool_series(v.deleted);
    let l11 = ",\"notes\":"@;
    let p11 = ser_notes(v.notes);
    assert(ser_video_tail2(v) =~= l9 + (p9 + (l10 + (p10 + (l11 + (p11 + seq!['}']))))));
    lemma_matches_at_split(s, i16, l9, p9 + (l10 + (p10 + (l11 + (p11 + seq!['}'])))));
    let o17 = i16 + l9.len();
    lemma_matches_at_split(s, o17, p9, l10 + (p10 + (l11 + (p11 + seq!['}']))));
    lemma_parse_ser_str_series(s, o17, v.thumbnail);
    let o18 = o17 + p9.len();
    lemma_matches_at_split(s, o18, l10, p10 + (l11 + (p11 + seq!['}'])));
    let o19 = o18 + l10.len();
    lemma_matches_at_split(s, o19, p10, l11 + (p11 + seq!['}']));
    lemma_parse_ser_bool_series(s, o19, v.deleted);
    let o20 = o19 + p10.len();
    lemma_matches_at_split(s, o20, l11, p11 + seq!['}']);
    let o21 = o20 + l11.len();
    lemma_matches_at_split(s, o21, p11, seq!['}']);
    lemma_parse_ser_notes(s, o21, v.notes);
    let o22 = o21 + p11.len();
    lemma_matches_at_index(s, o22, seq!['}'], 0);
    assert(s[o22] == '}');
}


/// The middle third of a written video reads back.
#[verifier::rlimit(100)]
pub proof fn lemma_parse_ser_video_rest(s: Seq<char>, i10: int, v: VideoModel)
    requires
        video_model_wf(v),
        matches_at(s, i10, ser_video_tail1(v)),
    ensures
        parse_video_rest(s, i10, v.id, v.uploaded, v.width, v.height, v.title) == Some(
            (v, i10 + ser_video_tail1(v).len()),
        ),
{
    reveal_strlit(",\"description\":");
    reveal_strlit(",\"views\":");
    reveal_strlit(",\"likes\":");
    let l6 = ",\"description\":"@;
    let p6 = ser_str_series(v.description);
    let l7 = ",\"views\":"@;
    let p7 = ser_opt_series(v.views);
    let l8 = ",\"likes\":"@;
    let p8 = ser_opt_series(v.likes);
    let t2 = ser_video_tail2(v);
    assert(ser_video_tail1(v) == l6 + p6 + l7 + p7 + l8 + p8 + t2);
    lemma_matches_at_split(s, i10, l6 + p6 + l7 + p7 + l8 + p8, t2);
    lemma_matches_at_split(s, i10, l6 + p6 + l7 + p7 + l8, p8);
    lemma_matches_at_split(s, i10, l6 + p6 + l7 + p7, l8);
    lemma_matches_at_split(s, i10, l6 + p6 + l7, p7);
    lemma_matches_at_split(s, i10, l6 + p6, l7);
    lemma_matches_at_split(s, i10, l6, p6);
    let o11 = i10 + l6.len();
    let o12 = o11 + p6.len();
    let o13 = o12 + l7.len();
    let o14 = o13 + p7.len();
    let o15 = o14 + l8.len();
    let o16 = o15 + p8.len();
    lemma_parse_ser_str_series(s, o11, v.description);
    lemma_parse_ser_opt_series(s, o13, v.views);
    lemma_parse_ser_opt_series(s, o15, v.likes);
    lemma_parse_ser_video_rest2(s, o16, v);
}

/// A written video's text opens with a brace.
pub proof fn lemma_ser_video_first(v: VideoModel)
    ensures
        ser_video(v).len() > 0,
        ser_video(v)[0] == '{',
{
    reveal(ser_video);
    reveal_strlit("{\"id\":");
    let l1 = "{\"id\":"@;
    assert(ser_video(v)[0] == l1[0]);
}

/// Reading a written video back yields it again.
#[verifier::spinoff_prover]
#[verifier::rlimit(100)]
pub proof fn lemma_parse_ser_video(s: Seq<char>, i: int, v: VideoModel)
    requires
        video_model_wf(v),
        matches_at(s, i, ser_video(v)),
    ensures
        parse_video(s, i) == Some((v, i + ser_video(v).len())),
{
    reveal(ser_video);
    reveal(parse_video);
    reveal_strlit("{\"id\":");
    reveal_strlit(",\"uploaded\":");
    reveal_strlit(",\"width\":");
    reveal_strlit(",\"height\":");
    reveal_strlit(",\"title\":");
    let l1 = "{\"id\":"@;
    let p1 = spec_ser_string(v.id);
    let l2 = ",\"uploaded\":"@;
    let p2 = spec_ser_date(v.uploaded);
    let l3 = ",\"width\":"@;
    let p3 = spec_dec_digits(v.width as int);
    let l4 = ",\"height\":"@;
    let p4 = spec_dec_digits(v.height as int);
    let l5 = ",\"title\":"@;
    let p5 = ser_str_series(v.title);
    let t1 = ser_video_tail1(v);
    crate::numtext::lemma_pad_shape(
        v.width as int,
        crate::numtext::spec_ndigits(v.width as int, 10),
        10,
    );
    crate::numtext::lemma_pad_shape(
        v.height as int,
        crate::numtext::spec_ndigits(v.height as int, 10),
        10,
    );
    assert(ser_video(v) == l1 + p1 + l2 + p2 + l3 + p3 + l4 + p4 + l5 + p5 + t1);
    lemma_matches_at_split(s, i, l1 + p1 + l2 + p2 + l3 + p3 + l4 + p4 + l5 + p5, t1);
    lemma_matches_at_split(s, i, l1 + p1 + l2 + p2 + l3 + p3 + l4 + p4 + l5, p5);
    lemma_matches_at_split(s, i, l1 + p1 + l2 + p2 + l3 + p3 + l4 + p4, l5);
    lemma_matches_at_split(s, i, l1 + p1 + l2 + p2 + l3 + p3 + l4, p4);
    lemma_matches_at_split(s, i, l1 + p1 + l2 + p2 + l3 + p3, l4);
    lemma_matches_at_split(s, i, l1 + p1 + l2 + p2 + l3, p3);
    lemma_matches_at_split(s, i, l1 + p1 + l2 + p2, l3);
    lemma_matches_at_split(s, i, l1 + p1 + l2, p2);
    lemma_matches_at_split(s, i, l1 + p1, l2);
    lemma_matches_at_split(s, i, l1, p1);
    let o1 = i + l1.len();
    let o2 = o1 + p1.len();
    let o3 = o2 + l2.len();
    let o4 = o3 + p2.len();
    let o5 = o4 + l3.len();
    let o6 = o5 + p3.len();
    let o7 = o6 + l4.len();
    let o8 = o7 + p4.len();
    let o9 = o8 + l5.len();
    let o10 = o9 + p5.len();
    lemma_parse_ser_string(s, o1, v.id);
    lemma_parse_ser_date(s, o3, v.uploaded);
    lemma_matches_at_index(s, o6, l4, 0);
    assert(s[o6] == ',');
    assert(!spec_is_dec_digit(','));
    lemma_parse_ser_u32(s, o5, v.width);
    lemma_matches_at_index(s, o8, l5, 0);
    assert(s[o8] == ',');
    lemma_parse_ser_u32(s, o7, v.height);
    lemma_parse_ser_str_series(s, o9, v.title);
    lemma_parse_ser_video_rest(s, o10, v);
}

/// A successful string-valued-series read moved the position forward.
pub proof fn lemma_parse_str_items_shape(s: Seq<char>, i: int, acc: Seq<(YarkDate, Seq<char>)>)
    requires
        0 <= i,
    ensures
        parse_str_items(s, i, acc) matches Some((m, j)) ==> i < j <= s.len(),
    decreases s.len() - i,
{
    crate::wire::lemma_parse_date_shape(s, i);
    if spec_parse_date(s, i) is Some {
        let (d, j1) = spec_parse_date(s, i).unwrap();
        if j1 < s.len() && s[j1] == ':' {
            crate::wire::lemma_parse_string_shape(s, j1 + 1);
            if spec_parse_string(s, j1 + 1) is Some {
                let (v, j2) = spec_parse_string(s, j1 + 1).unwrap();
                let acc2 = spec_insert_entry(acc, d, v);
                if j2 < s.len() && s[j2] == ',' && i < j2 + 1 <= s.len() {
                    lemma_parse_str_items_shape(s, j2 + 1, acc2);
                }
            }
        }
    }
}

pub proof fn lemma_parse_str_series_shape(s: Seq<char>, i: int)
    requires
        0 <= i,
    ensures
        parse_str_series(s, i) matches Some((m, j)) ==> i < j <= s.len(),
{
    if 0 <= i && i < s.len() && s[i] == '{' && !(i + 1 < s.len() && s[i + 1] == '}') {
        lemma_parse_str_items_shape(s, i + 1, Seq::empty());
    }
}

/// A successful count-valued-series read moved the position forward.
pub proof fn lemma_parse_opt_items_shape(s: Seq<char>, i: int, acc: Seq<(YarkDate, Option<u32>)>)
    requires
        0 <= i,
    ensures
        parse_opt_items(s, i, acc) matches Some((m, j)) ==> i < j <= s.len(),
    decreases s.len() - i,
{
    crate::wire::lemma_parse_date_shape(s, i);
    if spec_parse_date(s, i) is Some {
        let (d, j1) = spec_parse_date(s, i).unwrap();
        if j1 < s.len() && s[j1] == ':' {
            lemma_parse_opt_shape(s, j1 + 1);
            if parse_opt_u32(s, j1 + 1) is Some {
                let (v, j2) = parse_opt_u32(s, j1 + 1).unwrap();
                let acc2 = spec_insert_entry(acc, d, v);
                if j2 < s.len() && s[j2] == ',' && i < j2 + 1 <= s.len() {
                    lemma_parse_opt_items_shape(s, j2 + 1, acc2);
                }
            }
        }
    }
}

pub proof fn lemma_parse_opt_series_shape(s: Seq<char>, i: int)
    requires
        0 <= i,
    ensures
        parse_opt_series(s, i) matches Some((m, j)) ==> i < j <= s.len(),
{
    if 0 <= i && i < s.len() && s[i] == '{' && !(i + 1 < s.len() && s[i + 1] == '}') {
        lemma_parse_opt_items_shape(s, i + 1, Seq::empty());
    }
}

/// A successful flag-valued-series read moved the position forward.
pub proof fn lemma_parse_bool_items_shape(s: Seq<char>, i: int, acc: Seq<(YarkDate, bool)>)
    requires
        0 <= i,
    ensures
        parse_bool_items(s, i, acc) matches Some((m, j)) ==> i < j <= s.len(),
    decreases s.len() - i,
{
    crate::wire::lemma_parse_date_shape(s, i);
    if spec_parse_date(s, i) is Some {
        let (d, j1) = spec_parse_date(s, i).unwrap();
        if j1 < s.len() && s[j1] == ':' {
            lemma_parse_bool_shape(s, j1 + 1);
            if parse_bool(s, j1 + 1) is Some {
                let (v, j2) = parse_bool(s, j1 + 1).unwrap();
                let acc2 = spec_insert_entry(acc, d, v);
                if j2 < s.len() && s[j2] == ',' && i < j2 + 1 <= s.len() {
                    lemma_parse_bool_items_shape(s, j2 + 1, acc2);
                }
            }
        }
    }
}

pub proof fn lemma_parse_bool_series_shape(s: Seq<char>, i: int)
    requires
        0 <= i,
    ensures
        parse_bool_series(s, i) matches Some((m, j)) ==> i < j <= s.len(),
{
    if 0 <= i && i < s.len() && s[i] == '{' && !(i + 1 < s.len() && s[i + 1] == '}') {
        lemma_parse_bool_items_shape(s, i + 1, Seq::empty());
    }
}

/// A successful note-list read moved the position forward.
pub proof fn lemma_parse_note_items_shape(s: Seq<char>, i: int, acc: Seq<NoteModel>)
    requires
        0 <= i,
    ensures
        parse_note_items(s, i, acc) matches Some((m, j)) ==> i < j <= s.len(),
    decreases s.len() - i,
{
    lemma_parse_note_shape(s, i);
    if parse_note(s, i) is Some {
        let (n, j) = parse_note(s, i).unwrap();
        let acc2 = spec_note_insert(acc, n);
        if j < s.len() && s[j] == ',' && i < j + 1 <= s.len() {
            lemma_parse_note_items_shape(s, j + 1, acc2);
        }
    }
}

pub proof fn lemma_parse_notes_shape(s: Seq<char>, i: int)
    requires
        0 <= i,
    ensures
        parse_notes(s, i) matches Some((m, j)) ==> i < j <= s.len(),
{
    if 0 <= i && i < s.len() && s[i] == '[' && !(i + 1 < s.len() && s[i + 1] == ']') {
        lemma_parse_note_items_shape(s, i + 1, Seq::empty());
    }
}

/// The models of a sequence of videos.
pub open spec fn model_videos(s: Seq<crate::video::Video>) -> Seq<VideoModel> {
    s.map_values(|v: crate::video::Video| video_model(v))
}

/// Identifiers are unique across video models.
pub open spec fn video_models_unique(s: Seq<VideoModel>) -> bool {
    forall|i: int, j: int| 0 <= i < j < s.len() ==> (#[trigger] s[i]).id != (#[trigger] s[j]).id
}

/// Where a stored video joins the collection: it replaces the first video
/// carrying its identifier, or joins at the end.
pub open spec fn spec_vm_insert(acc: Seq<VideoModel>, v: VideoModel) -> Seq<VideoModel>
    decreases acc.len(),
{
    if acc.len() == 0 {
        seq![v]
    } else if acc[0].id == v.id {
        seq![v] + acc.drop_first()
    } else {
        seq![acc[0]] + spec_vm_insert(acc.drop_first(), v)
    }
}

/// With the matching identifier at `i` and nowhere earlier, the insertion
/// is an update in place.
pub proof fn lemma_vm_insert_char(acc: Seq<VideoModel>, v: VideoModel, i: int)
    requires
        0 <= i < acc.len(),
        acc[i].id == v.id,
        forall|k: int| 0 <= k < i ==> (#[trigger] acc[k]).id != v.id,
    ensures
        spec_vm_insert(acc, v) == acc.update(i, v),
    decreases acc.len(),
{
    if i == 0 {
        assert(seq![v] + acc.drop_first() =~= acc.update(0, v));
    } else {
        let t = acc.drop_first();
        assert(forall|k: int| 0 <= k < i - 1 ==> (#[trigger] t[k]).id != v.id);
        lemma_vm_insert_char(t, v, i - 1);
        assert(seq![acc[0]] + t.update(i - 1, v) =~= acc.update(i, v));
    }
}

/// With no matching identifier present, the insertion appends.
pub proof fn lemma_vm_insert_fresh(acc: Seq<VideoModel>, v: VideoModel)
    requires
        forall|k: int| 0 <= k < acc.len() ==> (#[trigger] acc[k]).id != v.id,
    ensures
        spec_vm_insert(acc, v) == acc.push(v),
    decreases acc.len(),
{
    if acc.len() == 0 {
        assert(seq![v] =~= acc.push(v));
    } else {
        let t = acc.drop_first();
        assert(forall|k: int| 0 <= k < t.len() ==> (#[trigger] t[k]).id != v.id);
        lemma_vm_insert_fresh(t, v);
        assert(seq![acc[0]] + t.push(v) =~= acc.push(v));
    }
}

/// The comma-joined videos of a partition.
pub open spec fn ser_video_items(s: Seq<VideoModel>) -> Seq<char>
    decreases s.len(),
{
    if s.len() == 0 {
        Seq::empty()
    } else if s.len() == 1 {
        ser_video(s[0])
    } else {
        ser_video(s[0]) + seq![','] + ser_video_items(s.drop_first())
    }
}

/// A video partition in the text form: a flat ordered list.
pub open spec fn ser_videos(s: Seq<VideoModel>) -> Seq<char> {
    seq!['['] + ser_video_items(s) + seq![']']
}

/// Every video model in a sequence is well formed.
pub open spec fn video_models_wf(s: Seq<VideoModel>) -> bool {
    forall|k: int| 0 <= k < s.len() ==> video_model_wf(#[trigger] s[k])
}

/// Reading the videos of a partition, folded by keyed insertion so that a
/// repeated identifier keeps its last record.
pub open spec fn parse_video_items(s: Seq<char>, i: int, acc: Seq<VideoModel>) -> Option<
    (Seq<VideoModel>, int),
>
    decreases s.len() - i,
{
    match parse_video(s, i) {
        None => None,
        Some((v, j)) => {
            let acc2 = spec_vm_insert(acc, v);
            if j < s.len() && s[j] == ']' {
                Some((acc2, j + 1))
            } else if j < s.len() && s[j] == ',' && i < j + 1 <= s.len() {
                parse_video_items(s, j + 1, acc2)
            } else {
                None
            }
        },
    }
}

/// Reading a whole video partition.
pub open spec fn parse_videos(s: Seq<char>, i: int) -> Option<(Seq<VideoModel>, int)> {
    if !(0 <= i && i < s.len() && s[i] == '[') {
        None
    } else if i + 1 < s.len() && s[i + 1] == ']' {
        Some((Seq::empty(), i + 2))
    } else {
        parse_video_items(s, i + 1, Seq::empty())
    }
}

/// A successful video read moved the position forward, within bounds.
pub proof fn lemma_parse_video_shape(s: Seq<char>, i: int)
    requires
        0 <= i,
    ensures
        parse_video(s, i) matches Some((v, j)) ==> i < j <= s.len(),
{
    reveal(parse_video);
    reveal_strlit("{\"id\":");
    reveal_strlit(",\"uploaded\":");
    reveal_strlit(",\"width\":");
    reveal_strlit(",\"height\":");
    reveal_strlit(",\"title\":");
    reveal_strlit(",\"description\":");
    reveal_strlit(",\"views\":");
    reveal_strlit(",\"likes\":");
    reveal_strlit(",\"thumbnail\":");
    reveal_strlit(",\"deleted\":");
    reveal_strlit(",\"notes\":");
    if parse_video(s, i) is Some {
        let i1 = parse_lit(s, i, "{\"id\":"@).unwrap();
        crate::wire::lemma_parse_string_shape(s, i1);
        let (id, i2) = spec_parse_string(s, i1).unwrap();
        let i3 = parse_lit(s, i2, ",\"uploaded\":"@).unwrap();
        crate::wire::lemma_parse_date_shape(s, i3);
        let (uploaded, i4) = spec_parse_date(s, i3).unwrap();
        let i5 = parse_lit(s, i4, ",\"width\":"@).unwrap();
        crate::wire::lemma_digit_run_bounds(s, i5);
        let (width, i6) = spec_parse_u32(s, i5).unwrap();
        let i7 = parse_lit(s, i6, ",\"height\":"@).unwrap();
        crate::wire::lemma_digit_run_bounds(s, i7);
        let (height, i8) = spec_parse_u32(s, i7).unwrap();
        let i9 = parse_lit(s, i8, ",\"title\":"@).unwrap();
        lemma_parse_str_series_shape(s, i9);
        let (title, i10) = parse_str_series(s, i9).unwrap();
        let i11 = parse_lit(s, i10, ",\"description\":"@).unwrap();
        lemma_parse_str_series_shape(s, i11);
        let (description, i12) = parse_str_series(s, i11).unwrap();
        let i13 = parse_lit(s, i12, ",\"views\":"@).unwrap();
        lemma_parse_opt_series_shape(s, i13);
        let (views, i14) = parse_opt_series(s, i13).unwrap();
        let i15 = parse_lit(s, i14, ",\"likes\":"@).unwrap();
        lemma_parse_opt_series_shape(s, i15);
        let (likes, i16) = parse_opt_series(s, i15).unwrap();
        let i17 = parse_lit(s, i16, ",\"thumbnail\":"@).unwrap();
        lemma_parse_str_series_shape(s, i17);
        let (thumbnail, i18) = parse_str_series(s, i17).unwrap();
        let i19 = parse_lit(s, i18, ",\"deleted\":"@).unwrap();
        lemma_parse_bool_series_shape(s, i19);
        let (deleted, i20) = parse_bool_series(s, i19).unwrap();
        let i21 = parse_lit(s, i20, ",\"notes\":"@).unwrap();
        lemma_parse_notes_shape(s, i21);
    }
}

/// Reading written videos back extends the fold by exactly those videos,
/// whose identifiers are fresh for the accumulator.
#[verifier::rlimit(100)]
pub proof fn lemma_parse_ser_video_items(
    s: Seq<char>,
    i: int,
    acc: Seq<VideoModel>,
    m: Seq<VideoModel>,
)
    requires
        m.len() > 0,
        video_models_unique(acc + m),
        video_models_wf(m),
        matches_at(s, i, ser_video_items(m) + seq![']']),
    ensures
        parse_video_items(s, i, acc) == Some((acc + m, i + ser_video_items(m).len() + 1)),
    decreases m.len(),
{
    let e = m[0];
    let etxt = ser_video(e);
    assert(video_model_wf(e));
    assert forall|k: int| 0 <= k < acc.len() implies (#[trigger] acc[k]).id != e.id by {
        assert((acc + m)[k] == acc[k]);
        assert((acc + m)[acc.len() as int] == e);
    }
    lemma_vm_insert_fresh(acc, e);
    assert(spec_vm_insert(acc, e) == acc.push(e));
    assert(acc.push(e) =~= acc + seq![e]);
    if m.len() == 1 {
        assert(ser_video_items(m) == etxt);
        assert(ser_video_items(m) + seq![']'] =~= etxt + seq![']']);
        lemma_matches_at_split(s, i, etxt, seq![']']);
        lemma_parse_ser_video(s, i, e);
        lemma_matches_at_index(s, i + etxt.len(), seq![']'], 0);
        assert(acc + m =~= acc + seq![e]);
    } else {
        let rest = m.drop_first();
        assert(video_models_wf(rest)) by {
            assert(forall|k: int|
                0 <= k < rest.len() ==> video_model_wf(#[trigger] rest[k]));
        }
        assert(ser_video_items(m) == etxt + seq![','] + ser_video_items(rest));
        assert(ser_video_items(m) + seq![']'] =~= etxt + (seq![','] + (ser_video_items(rest)
            + seq![']'])));
        lemma_matches_at_split(s, i, etxt, seq![','] + (ser_video_items(rest) + seq![']']));
        lemma_parse_ser_video(s, i, e);
        let i1 = i + etxt.len();
        lemma_matches_at_split(s, i1, seq![','], ser_video_items(rest) + seq![']']);
        lemma_matches_at_index(s, i1, seq![','], 0);
        let i2 = i1 + 1;
        assert(video_models_unique((acc + seq![e]) + rest)) by {
            assert((acc + seq![e]) + rest =~= acc + m);
        }
        lemma_parse_ser_video_items(s, i2, acc + seq![e], rest);
        assert((acc + seq![e]) + rest =~= acc + m);
    }
}

/// Reading a written video partition back yields its videos again.
#[verifier::rlimit(100)]
pub proof fn lemma_parse_ser_videos(s: Seq<char>, i: int, m: Seq<VideoModel>)
    requires
        video_models_unique(m),
        video_models_wf(m),
        matches_at(s, i, ser_videos(m)),
    ensures
        parse_videos(s, i) == Some((m, i + ser_videos(m).len())),
{
    assert(ser_videos(m) =~= seq!['['] + (ser_video_items(m) + seq![']']));
    lemma_matches_at_split(s, i, seq!['['], ser_video_items(m) + seq![']']);
    lemma_matches_at_index(s, i, seq!['['], 0);
    if m.len() == 0 {
        assert(ser_video_items(m) == Seq::<char>::empty());
        lemma_matches_at_index(s, i + 1, ser_video_items(m) + seq![']'], 0);
        assert(s[i + 1] == ']');
    } else {
        assert(Seq::<VideoModel>::empty() + m =~= m);
        lemma_parse_ser_video_items(s, i + 1, Seq::empty(), m);
        lemma_ser_video_first(m[0]);
        let etxt = ser_video(m[0]);
        assert(ser_video_items(m) + seq![']'] =~= etxt + ((ser_video_items(m) + seq![
            ']',
        ]).skip(etxt.len() as int))) by {
            if m.len() == 1 {
                assert(ser_video_items(m) == ser_video(m[0]));
            }
        }
        lemma_matches_at_split(s, i + 1, etxt, (ser_video_items(m) + seq![']']).skip(
            etxt.len() as int,
        ));
        lemma_matches_at_index(s, i + 1, etxt, 0);
        assert(etxt[0] == '{');
        assert(s[i + 1] == '{');
    }
}

/// Writes the last third of a video.
fn emit_video_tail2(out: &mut String, v: &crate::video::Video)
    ensures
        final(out)@ == old(out)@ + ser_video_tail2(video_model(*v)),
{
    out.append(",\"thumbnail\":");
    emit_str_series(out, v.thumbnail.as_series());
    out.append(",\"deleted\":");
    emit_bool_series(out, &v.deleted);
    out.append(",\"notes\":");
    emit_notes(out, &v.notes);
    push_char(out, '}');
    proof {
        assert(out@ =~= old(out)@ + ser_video_tail2(video_model(*v)));
    }
}

/// Writes the middle third of a video.
fn emit_video_tail1(out: &mut String, v: &crate::video::Video)
    ensures
        final(out)@ == old(out)@ + ser_video_tail1(video_model(*v)),
{
    out.append(",\"description\":");
    emit_str_series(out, &v.description);
    out.append(",\"views\":");
    emit_opt_series(out, &v.views);
    out.append(",\"likes\":");
    emit_opt_series(out, &v.likes);
    emit_video_tail2(out, v);
    proof {
        assert(out@ =~= old(out)@ + ser_video_tail1(video_model(*v)));
    }
}

/// Writes one video.
#[verifier::spinoff_prover]
#[verifier::rlimit(100)]
pub fn emit_video(out: &mut String, v: &crate::video::Video)
    ensures
        final(out)@ == old(out)@ + ser_video(video_model(*v)),
{
    proof {
        reveal(ser_video);
    }
    out.append("{\"id\":");
    emit_string(out, v.id.as_str());
    out.append(",\"uploaded\":");
    emit_date(out, v.uploaded);
    out.append(",\"width\":");
    emit_u32(out, v.width);
    out.append(",\"height\":");
    emit_u32(out, v.height);
    out.append(",\"title\":");
    emit_str_series(out, &v.title);
    emit_video_tail1(out, v);
    proof {
        assert(out@ =~= old(out)@ + ser_video(video_model(*v)));
    }
}

/// Reads one video starting at `i`.
#[verifier::rlimit(100)]
pub fn parse_video_at(s: &Vec<char>, i: usize) -> (r: Option<(crate::video::Video, usize)>)
    requires
        i <= s@.len(),
    ensures
        match parse_video(s@, i as int) {
            Some((m, j)) => r matches Some(p) && video_model(p.0) == m && p.0.wf() && p.1 as int
                == j && p.1 <= s@.len(),
            None => r is None,
        },
{
    proof {
        reveal(parse_video);
    }
    let i1 = match parse_lit_at(s, i, "{\"id\":") {
        None => {
            return None;
        },
        Some(x) => x,
    };
    let (id, i2) = match parse_string_at(s, i1) {
        None => {
            return None;
        },
        Some(p) => p,
    };
    let i3 = match parse_lit_at(s, i2, ",\"uploaded\":") {
        None => {
            return None;
        },
        Some(x) => x,
    };
    let (uploaded, i4) = match parse_date_at(s, i3) {
        None => {
            return None;
        },
        Some(p) => p,
    };
    proof {
        crate::wire::lemma_parse_date_shape(s@, i3 as int);
    }
    let i5 = match parse_lit_at(s, i4, ",\"width\":") {
        None => {
            return None;
        },
        Some(x) => x,
    };
    let (width, i6) = match parse_u32_at(s, i5) {
        None => {
            return None;
        },
        Some(p) => p,
    };
    let i7 = match parse_lit_at(s, i6, ",\"height\":") {
        None => {
            return None;
        },
        Some(x) => x,
    };
    let (height, i8) = match parse_u32_at(s, i7) {
        None => {
            return None;
        },
        Some(p) => p,
    };
    let i9 = match parse_lit_at(s, i8, ",\"title\":") {
        None => {
            return None;
        },
        Some(x) => x,
    };
    let (title, i10) = match parse_str_series_at(s, i9) {
        None => {
            return None;
        },
        Some(p) => p,
    };
    let i11 = match parse_lit_at(s, i10, ",\"description\":") {
        None => {
            return None;
        },
        Some(x) => x,
    };
    let (description, i12) = match parse_str_series_at(s, i11) {
        None => {
            return None;
        },
        Some(p) => p,
    };
    let i13 = match parse_lit_at(s, i12, ",\"views\":") {
        None => {
            return None;
        },
        Some(x) => x,
    };
    let (views, i14) = match parse_opt_series_at(s, i13) {
        None => {
            return None;
        },
        Some(p) => p,
    };
    let i15 = match parse_lit_at(s, i14, ",\"likes\":") {
        None => {
            return None;
        },
        Some(x) => x,
    };
    let (likes, i16) = match parse_opt_series_at(s, i15) {
        None => {
            return None;
        },
        Some(p) => p,
    };
    let i17 = match parse_lit_at(s, i16, ",\"thumbnail\":") {
        None => {
            return None;
        },
        Some(x) => x,
    };
    let (thumbnail, i18) = match parse_str_series_at(s, i17) {
        None => {
            return None;
        },
        Some(p) => p,
    };
    let i19 = match parse_lit_at(s, i18, ",\"deleted\":") {
        None => {
            return None;
        },
        Some(x) => x,
    };
    let (deleted, i20) = match parse_bool_series_at(s, i19) {
        None => {
            return None;
        },
        Some(p) => p,
    };
    let i21 = match parse_lit_at(s, i20, ",\"notes\":") {
        None => {
            return None;
        },
        Some(x) => x,
    };
    let (notes, i22) = match parse_notes_at(s, i21) {
        None => {
            return None;
        },
        Some(p) => p,
    };
    if !(i22 < s.len() && s[i22] == '}') {
        return None;
    }
    let video = crate::video::Video {
        id,
        uploaded,
        width,
        height,
        title,
        description,
        views,
        likes,
        thumbnail: crate::images::Images::from_series(thumbnail),
        deleted,
        notes,
    };
    Some((video, i22 + 1))
}

/// The video-list text grows at its end as videos are appended.
pub proof fn lemma_ser_video_items_snoc(m: Seq<VideoModel>)
    requires
        m.len() > 0,
    ensures
        m.len() == 1 ==> ser_video_items(m) == ser_video(m[0]),
        m.len() > 1 ==> ser_video_items(m) == ser_video_items(m.drop_last()) + seq![',']
            + ser_video(m.last()),
    decreases m.len(),
{
    if m.len() > 1 {
        let t = m.drop_first();
        lemma_ser_video_items_snoc(t);
        assert(m.drop_last().drop_first() =~= t.drop_last());
        assert(m.drop_last()[0] == m[0]);
        assert(t.last() == m.last());
        if m.len() == 2 {
            assert(m.drop_last().len() == 1);
            assert(ser_video_items(m.drop_last()) == ser_video(m[0]));
            assert(ser_video_items(t) == ser_video(t[0]));
            assert(ser_video_items(m) =~= ser_video_items(m.drop_last()) + seq![','] + ser_video(
                m.last(),
            ));
        } else {
            assert(m.drop_last().len() > 1);
            assert(ser_video_items(m.drop_last()) == ser_video(m[0]) + seq![','] + ser_video_items(
                t.drop_last(),
            ));
            assert(ser_video_items(m) =~= ser_video_items(m.drop_last()) + seq![','] + ser_video(
                m.last(),
            ));
        }
    }
}

/// Writes a whole video partition.
pub fn emit_videos(out: &mut String, vs: &crate::video::Videos)
    ensures
        final(out)@ == old(out)@ + ser_videos(model_videos(vs.videos_seq())),
{
    push_char(out, '[');
    let n = vs.len();
    for k in 0..n
        invariant
            n == vs.videos_seq().len(),
            out@ == old(out)@ + seq!['['] + ser_video_items(
                model_videos(vs.videos_seq()).take(k as int),
            ),
    {
        let entry = vs.video_at(k);
        if k > 0 {
            push_char(out, ',');
        }
        emit_video(out, entry);
        proof {
            let m = model_videos(vs.videos_seq());
            lemma_ser_video_items_snoc(m.take(k as int + 1));
            assert(m.take(k as int + 1).drop_last() =~= m.take(k as int));
            assert(m.take(k as int + 1).last() == m[k as int]);
            assert(m[k as int] == video_model(vs.videos_seq()[k as int]));
            assert(out@ =~= old(out)@ + seq!['['] + ser_video_items(m.take(k as int + 1)));
        }
    }
    push_char(out, ']');
    proof {
        let m = model_videos(vs.videos_seq());
        assert(m.take(n as int) =~= m);
        assert(out@ =~= old(out)@ + ser_videos(m));
    }
}

/// Reads a whole video partition starting at `i`.
pub fn parse_videos_at(s: &Vec<char>, i: usize) -> (r: Option<(crate::video::Videos, usize)>)
    requires
        i <= s@.len(),
    ensures
        match parse_videos(s@, i as int) {
            Some((m, j)) => r matches Some(p) && model_videos(p.0.videos_seq()) == m && p.0.wf()
                && p.1 as int == j && p.1 <= s@.len(),
            None => r is None,
        },
{
    if !(i < s.len() && s[i] == '[') {
        return None;
    }
    if i + 1 < s.len() && s[i + 1] == ']' {
        let vs = crate::video::Videos::new();
        proof {
            assert(model_videos(vs.videos_seq()) =~= Seq::<VideoModel>::empty());
        }
        return Some((vs, i + 2));
    }
    let mut videos = crate::video::Videos::new();
    let mut cur: usize = i + 1;
    proof {
        assert(model_videos(videos.videos_seq()) =~= Seq::<VideoModel>::empty());
    }
    loop
        invariant
            i + 1 <= cur <= s@.len(),
            videos.wf(),
            parse_videos(s@, i as int) == parse_video_items(s@, i as int + 1, Seq::empty()),
            parse_video_items(s@, i as int + 1, Seq::empty()) == parse_video_items(
                s@,
                cur as int,
                model_videos(videos.videos_seq()),
            ),
        decreases s@.len() - cur,
    {
        let ghost acc0 = model_videos(videos.videos_seq());
        let (v, j) = match parse_video_at(s, cur) {
            None => {
                return None;
            },
            Some(p) => p,
        };
        proof {
            lemma_parse_video_shape(s@, cur as int);
        }
        let ghost vm = video_model(v);
        let ghost old_videos = videos;
        let _ = videos.insert(v);
        proof {
            let vs0 = old_videos.videos_seq();
            assert(acc0.len() == vs0.len());
            assert forall|k: int| 0 <= k < vs0.len() implies (#[trigger] acc0[k]).id
                == vs0[k].id@ by {
                assert(acc0[k] == video_model(vs0[k]));
            }
            if old_videos.spec_has(vm.id) {
                let wi = choose|wi: int|
                    #![auto]
                    0 <= wi < vs0.len() && vs0[wi].id@ == vm.id && videos.videos_seq()
                        == vs0.update(wi, v);
                assert forall|k: int| 0 <= k < wi implies (#[trigger] acc0[k]).id != vm.id by {
                    assert(vs0[k].id@ != vs0[wi].id@);
                }
                lemma_vm_insert_char(acc0, vm, wi);
                assert(model_videos(vs0.update(wi, v)) =~= acc0.update(wi, vm));
            } else {
                assert forall|k: int| 0 <= k < acc0.len() implies (#[trigger] acc0[k]).id
                    != vm.id by {
                    if acc0[k].id == vm.id {
                        assert(vs0[k].id@ == vm.id);
                        assert(old_videos.spec_has(vm.id));
                    }
                }
                lemma_vm_insert_fresh(acc0, vm);
                assert(model_videos(vs0.push(v)) =~= acc0.push(vm));
            }
            assert(model_videos(videos.videos_seq()) == spec_vm_insert(acc0, vm));
        }
        if j < s.len() && s[j] == ']' {
            proof {
                assert(parse_video_items(s@, cur as int, acc0) == Some(
                    (model_videos(videos.videos_seq()), j as int + 1),
                ));
            }
            return Some((videos, j + 1));
        }
        if j < s.len() && s[j] == ',' {
            cur = j + 1;
        } else {
            return None;
        }
    }
}

/// An archive as mathematical values. The path is absent: it is where an
/// archive lives, not part of what is stored.
pub struct ArchiveModel {
    pub version: u32,
    pub url: Seq<char>,
    pub videos: Seq<VideoModel>,
    pub livestreams: Seq<VideoModel>,
    pub shorts: Seq<VideoModel>,
}

/// The model of an archive.
pub open spec fn archive_model(a: crate::archive::Archive) -> ArchiveModel {
    ArchiveModel {
        version: a.version,
        url: a.url@,
        videos: model_videos(a.videos.videos_seq()),
        livestreams: model_videos(a.livestreams.videos_seq()),
        shorts: model_videos(a.shorts.videos_seq()),
    }
}

/// Unique identifiers and well-formed videos throughout the partitions.
pub open spec fn archive_model_wf(m: ArchiveModel) -> bool {
    &&& video_models_unique(m.videos) && video_models_wf(m.videos)
    &&& video_models_unique(m.livestreams) && video_models_wf(m.livestreams)
    &&& video_models_unique(m.shorts) && video_models_wf(m.shorts)
}

/// A well-formed archive has a well-formed model.
pub proof fn lemma_archive_model_wf(a: crate::archive::Archive)
    requires
        a.wf(),
    ensures
        archive_model_wf(archive_model(a)),
{
    let m = archive_model(a);
    lemma_videos_model_wf(a.videos.videos_seq());
    lemma_videos_model_wf(a.livestreams.videos_seq());
    lemma_videos_model_wf(a.shorts.videos_seq());
}

/// A well-formed video sequence has a well-formed model sequence.
pub proof fn lemma_videos_model_wf(s: Seq<crate::video::Video>)
    requires
        crate::video::videos_unique(s),
        crate::video::videos_wf(s),
    ensures
        video_models_unique(model_videos(s)),
        video_models_wf(model_videos(s)),
{
    let m = model_videos(s);
    assert forall|a: int, b: int| 0 <= a < b < m.len() implies (#[trigger] m[a]).id != (
    #[trigger] m[b]).id by {
        assert(m[a] == video_model(s[a]));
        assert(m[b] == video_model(s[b]));
        assert(s[a].id@ != s[b].id@);
    }
    assert forall|k: int| 0 <= k < m.len() implies video_model_wf(#[trigger] m[k]) by {
        assert(m[k] == video_model(s[k]));
        assert(s[k].wf());
        lemma_video_model_wf(s[k]);
    }
}

/// An archive in the text form.
pub open spec fn ser_archive(m: ArchiveModel) -> Seq<char> {
    "{\"version\":"@ + spec_dec_digits(m.version as int) + ",\"url\":"@ + spec_ser_string(m.url)
        + ",\"videos\":"@ + ser_videos(m.videos) + ",\"livestreams\":"@ + ser_videos(
        m.livestreams,
    ) + ",\"shorts\":"@ + ser_videos(m.shorts) + seq!['}']
}

/// Reading an archive.
pub open spec fn parse_archive(s: Seq<char>, i: int) -> Option<(ArchiveModel, int)> {
    match parse_lit(s, i, "{\"version\":"@) {
        None => None,
        Some(i1) => match spec_parse_u32(s, i1) {
            None => None,
            Some((version, i2)) => match parse_lit(s, i2, ",\"url\":"@) {
                None => None,
                Some(i3) => match spec_parse_string(s, i3) {
                    None => None,
                    Some((url, i4)) => match parse_lit(s, i4, ",\"videos\":"@) {
                        None => None,
                        Some(i5) => match parse_videos(s, i5) {
                            None => None,
                            Some((videos, i6)) => match parse_lit(s, i6, ",\"livestreams\":"@) {
                                None => None,
                                Some(i7) => match parse_videos(s, i7) {
                                    None => None,
                                    Some((livestreams, i8)) => match parse_lit(
                                        s,
                                        i8,
                                        ",\"shorts\":"@,
                                    ) {
                                        None => None,
                                        Some(i9) => match parse_videos(s, i9) {
                                            None => None,
                                            Some((shorts, i10)) => if i10 < s.len() && s[i10]
                                                == '}' {
                                                Some(
                                                    (
                                                        ArchiveModel {
                                                            version,
                                                            url,
                                                            videos,
                                                            livestreams,
                                                            shorts,
                                                        },
                                                        i10 + 1,
                                                    ),
                                                )
                                            } else {
                                                None
                                            },
                                        },
                                    },
                                },
                            },
                        },
                    },
                },
            },
        },
    }
}

/// A successful video-partition read moved the position forward.
pub proof fn lemma_parse_video_items_shape(s: Seq<char>, i: int, acc: Seq<VideoModel>)
    requires
        0 <= i,
    ensures
        parse_video_items(s, i, acc) matches Some((m, j)) ==> i < j <= s.len(),
    decreases s.len() - i,
{
    lemma_parse_video_shape(s, i);
    if parse_video(s, i) is Some {
        let (v, j) = parse_video(s, i).unwrap();
        let acc2 = spec_vm_insert(acc, v);
        if j < s.len() && s[j] == ',' && i < j + 1 <= s.len() {
            lemma_parse_video_items_shape(s, j + 1, acc2);
        }
    }
}

pub proof fn lemma_parse_videos_shape(s: Seq<char>, i: int)
    requires
        0 <= i,
    ensures
        parse_videos(s, i) matches Some((m, j)) ==> i < j <= s.len(),
{
    if 0 <= i && i < s.len() && s[i] == '[' && !(i + 1 < s.len() && s[i + 1] == ']') {
        lemma_parse_video_items_shape(s, i + 1, Seq::empty());
    }
}

/// A successful archive read moved the position forward, within bounds.
pub proof fn lemma_parse_archive_shape(s: Seq<char>, i: int)
    requires
        0 <= i,
    ensures
        parse_archive(s, i) matches Some((m, j)) ==> i < j <= s.len(),
{
    reveal_strlit("{\"version\":");
    reveal_strlit(",\"url\":");
    reveal_strlit(",\"videos\":");
    reveal_strlit(",\"livestreams\":");
    reveal_strlit(",\"shorts\":");
    if parse_archive(s, i) is Some {
        let i1 = parse_lit(s, i, "{\"version\":"@).unwrap();
        crate::wire::lemma_digit_run_bounds(s, i1);
        let (version, i2) = spec_parse_u32(s, i1).unwrap();
        let i3 = parse_lit(s, i2, ",\"url\":"@).unwrap();
        crate::wire::lemma_parse_string_shape(s, i3);
        let (url, i4) = spec_parse_string(s, i3).unwrap();
        let i5 = parse_lit(s, i4, ",\"videos\":"@).unwrap();
        lemma_parse_videos_shape(s, i5);
        let (videos, i6) = parse_videos(s, i5).unwrap();
        let i7 = parse_lit(s, i6, ",\"livestreams\":"@).unwrap();
        lemma_parse_videos_shape(s, i7);
        let (livestreams, i8) = parse_videos(s, i7).unwrap();
        let i9 = parse_lit(s, i8, ",\"shorts\":"@).unwrap();
        lemma_parse_videos_shape(s, i9);
    }
}

/// Reading a written archive back yields it again.
#[verifier::spinoff_prover]
#[verifier::rlimit(100)]
pub proof fn lemma_parse_ser_archive(s: Seq<char>, i: int, m: ArchiveModel)
    requires
        archive_model_wf(m),
        matches_at(s, i, ser_archive(m)),
    ensures
        parse_archive(s, i) == Some((m, i + ser_archive(m).len())),
{
    reveal_strlit("{\"version\":");
    reveal_strlit(",\"url\":");
    reveal_strlit(",\"videos\":");
    reveal_strlit(",\"livestreams\":");
    reveal_strlit(",\"shorts\":");
    let l1 = "{\"version\":"@;
    let p1 = spec_dec_digits(m.version as int);
    let l2 = ",\"url\":"@;
    let p2 = spec_ser_string(m.url);
    let l3 = ",\"videos\":"@;
    let p3 = ser_videos(m.videos);
    let l4 = ",\"livestreams\":"@;
    let p4 = ser_videos(m.livestreams);
    let l5 = ",\"shorts\":"@;
    let p5 = ser_videos(m.shorts);
    crate::numtext::lemma_pad_shape(
        m.version as int,
        crate::numtext::spec_ndigits(m.version as int, 10),
        10,
    );
    assert(ser_archive(m) == l1 + p1 + l2 + p2 + l3 + p3 + l4 + p4 + l5 + p5 + seq!['}']);
    lemma_matches_at_split(s, i, l1 + p1 + l2 + p2 + l3 + p3 + l4 + p4 + l5 + p5, seq!['}']);
    lemma_matches_at_split(s, i, l1 + p1 + l2 + p2 + l3 + p3 + l4 + p4 + l5, p5);
    lemma_matches_at_split(s, i, l1 + p1 + l2 + p2 + l3 + p3 + l4 + p4, l5);
    lemma_matches_at_split(s, i, l1 + p1 + l2 + p2 + l3 + p3 + l4, p4);
    lemma_matches_at_split(s, i, l1 + p1 + l2 + p2 + l3 + p3, l4);
    lemma_matches_at_split(s, i, l1 + p1 + l2 + p2 + l3, p3);
    lemma_matches_at_split(s, i, l1 + p1 + l2 + p2, l3);
    lemma_matches_at_split(s, i, l1 + p1 + l2, p2);
    lemma_matches_at_split(s, i, l1 + p1, l2);
    lemma_matches_at_split(s, i, l1, p1);
    let o1 = i + l1.len();
    let o2 = o1 + p1.len();
    let o3 = o2 + l2.len();
    let o4 = o3 + p2.len();
    let o5 = o4 + l3.len();
    let o6 = o5 + p3.len();
    let o7 = o6 + l4.len();
    let o8 = o7 + p4.len();
    let o9 = o8 + l5.len();
    let o10 = o9 + p5.len();
    lemma_matches_at_index(s, o2, l2, 0);
    assert(s[o2] == ',');
    assert(!spec_is_dec_digit(','));
    lemma_parse_ser_u32(s, o1, m.version);
    lemma_parse_ser_string(s, o3, m.url);
    lemma_parse_ser_videos(s, o5, m.videos);
    lemma_parse_ser_videos(s, o7, m.livestreams);
    lemma_parse_ser_videos(s, o9, m.shorts);
    lemma_matches_at_index(s, o10, seq!['}'], 0);
    assert(s[o10] == '}');
}

/// Writes an archive.
#[verifier::spinoff_prover]
#[verifier::rlimit(100)]
pub fn emit_archive(out: &mut String, a: &crate::archive::Archive)
    ensures
        final(out)@ == old(out)@ + ser_archive(archive_model(*a)),
{
    out.append("{\"version\":");
    emit_u32(out, a.version);
    out.append(",\"url\":");
    emit_string(out, a.url.as_str());
    out.append(",\"videos\":");
    emit_videos(out, &a.videos);
    out.append(",\"livestreams\":");
    emit_videos(out, &a.livestreams);
    out.append(",\"shorts\":");
    emit_videos(out, &a.shorts);
    push_char(out, '}');
    proof {
        assert(out@ =~= old(out)@ + ser_archive(archive_model(*a)));
    }
}

/// Reads an archive starting at `i`; its path is left empty for the
/// caller to inject.
pub fn parse_archive_at(s: &Vec<char>, i: usize) -> (r: Option<(crate::archive::Archive, usize)>)
    requires
        i <= s@.len(),
    ensures
        match parse_archive(s@, i as int) {
            Some((m, j)) => r matches Some(p) && archive_model(p.0) == m && p.0.wf()
                && p.0.path@ == Seq::<char>::empty() && p.1 as int == j && p.1 <= s@.len(),
            None => r is None,
        },
{
    let i1 = match parse_lit_at(s, i, "{\"version\":") {
        None => {
            return None;
        },
        Some(x) => x,
    };
    let (version, i2) = match parse_u32_at(s, i1) {
        None => {
            return None;
        },
        Some(p) => p,
    };
    let i3 = match parse_lit_at(s, i2, ",\"url\":") {
        None => {
            return None;
        },
        Some(x) => x,
    };
    let (url, i4) = match parse_string_at(s, i3) {
        None => {
            return None;
        },
        Some(p) => p,
    };
    let i5 = match parse_lit_at(s, i4, ",\"videos\":") {
        None => {
            return None;
        },
        Some(x) => x,
    };
    let (videos, i6) = match parse_videos_at(s, i5) {
        None => {
            return None;
        },
        Some(p) => p,
    };
    let i7 = match parse_lit_at(s, i6, ",\"livestreams\":") {
        None => {
            return None;
        },
        Some(x) => x,
    };
    let (livestreams, i8) = match parse_videos_at(s, i7) {
        None => {
            return None;
        },
        Some(p) => p,
    };
    let i9 = match parse_lit_at(s, i8, ",\"shorts\":") {
        None => {
            return None;
        },
        Some(x) => x,
    };
    let (shorts, i10) = match parse_videos_at(s, i9) {
        None => {
            return None;
        },
        Some(p) => p,
    };
    if !(i10 < s.len() && s[i10] == '}') {
        return None;
    }
    let a = crate::archive::Archive {
        path: String::new(),
        version,
        url,
        videos,
        livestreams,
        shorts,
    };
    Some((a, i10 + 1))
}

/// The whole-text reading of an archive: nothing may follow it.
pub open spec fn archive_from_data(s: Seq<char>) -> Option<ArchiveModel> {
    match parse_archive(s, 0) {
        Some((m, j)) => if j == s.len() {
            Some(m)
        } else {
            None
        },
        None => None,
    }
}

/// Writing a well-formed archive and reading the text back yields the
/// archive again: the stored form loses nothing but the path, which the
/// reader takes separately.
pub proof fn lemma_archive_round_trip(a: crate::archive::Archive)
    requires
        a.wf(),
    ensures
        archive_from_data(ser_archive(archive_model(a))) == Some(archive_model(a)),
{
    lemma_archive_model_wf(a);
    let t = ser_archive(archive_model(a));
    assert(t.subrange(0, t.len() as int) =~= t);
    assert(matches_at(t, 0, t));
    lemma_parse_ser_archive(t, 0, archive_model(a));
}

impl crate::archive::Archive {
    /// The stored text of this archive. Writing cannot fail; the `Result`
    /// mirrors the saving interface.
    pub fn to_data_str(&self) -> (r: Result<String, crate::errors::Error>)
        ensures
            r matches Ok(t) && t@ == ser_archive(archive_model(*self)),
    {
        let mut out = String::new();
        emit_archive(&mut out, self);
        Ok(out)
    }

    /// Rebuilds an archive from its stored text and ties it to `path`,
    /// which the stored form does not carry. Fails exactly when the text
    /// is not a whole archive.
    pub fn from_data_str(path: String, data: &str) -> (r: Result<
        crate::archive::Archive,
        crate::errors::Error,
    >)
        ensures
            match archive_from_data(data@) {
                Some(m) => r matches Ok(a) && archive_model(a) == m && a.path == path && a.wf(),
                None => r == Err::<crate::archive::Archive, _>(crate::errors::Error::DataLoad),
            },
    {
        let chars = str_to_chars(data);
        match parse_archive_at(&chars, 0) {
            None => Err(crate::errors::Error::DataLoad),
            Some((a0, j)) => {
                if j == chars.len() {
                    let mut a = a0;
                    a.path = path;
                    Ok(a)
                } else {
                    Err(crate::errors::Error::DataLoad)
                }
            },
        }
    }
}

/// A manager as mathematical values: its version and the identifier-keyed
/// archives, in insertion order. Paths are absent from the stored form.
pub struct ManagerModel {
    pub version: u32,
    pub archives: Seq<(Seq<char>, ArchiveModel)>,
}

/// The model of a manager.
pub open spec fn manager_model(m: crate::manager::Manager) -> ManagerModel {
    ManagerModel {
        version: m.version,
        archives: m.archives_seq().map_values(
            |e: (String, crate::archive::Archive)| (e.0@, archive_model(e.1)),
        ),
    }
}

/// Unique identifiers and well-formed archives throughout.
pub open spec fn manager_model_wf(m: ManagerModel) -> bool {
    &&& forall|i: int, j: int|
        0 <= i < j < m.archives.len() ==> (#[trigger] m.archives[i]).0 != (
        #[trigger] m.archives[j]).0
    &&& forall|k: int| 0 <= k < m.archives.len() ==> archive_model_wf((#[trigger] m.archives[k]).1)
}

/// A well-formed manager has a well-formed model.
pub proof fn lemma_manager_model_wf(m: crate::manager::Manager)
    requires
        m.wf(),
    ensures
        manager_model_wf(manager_model(m)),
{
    let mm = manager_model(m);
    assert forall|i: int, j: int| 0 <= i < j < mm.archives.len() implies (
    #[trigger] mm.archives[i]).0 != (#[trigger] mm.archives[j]).0 by {
        assert(mm.archives[i].0 == m.archives_seq()[i].0@);
        assert(mm.archives[j].0 == m.archives_seq()[j].0@);
        assert(m.archives_seq()[i].0@ != m.archives_seq()[j].0@);
    }
    assert forall|k: int| 0 <= k < mm.archives.len() implies archive_model_wf(
        (#[trigger] mm.archives[k]).1,
    ) by {
        assert(mm.archives[k].1 == archive_model(m.archives_seq()[k].1));
        assert(m.archives_seq()[k].1.wf());
        lemma_archive_model_wf(m.archives_seq()[k].1);
    }
}

/// Where a stored archive joins the index: it replaces the first entry
/// carrying its identifier, or joins at the end.
pub open spec fn spec_am_insert(
    acc: Seq<(Seq<char>, ArchiveModel)>,
    id: Seq<char>,
    am: ArchiveModel,
) -> Seq<(Seq<char>, ArchiveModel)>
    decreases acc.len(),
{
    if acc.len() == 0 {
        seq![(id, am)]
    } else if acc[0].0 == id {
        seq![(id, am)] + acc.drop_first()
    } else {
        seq![acc[0]] + spec_am_insert(acc.drop_first(), id, am)
    }
}

/// With the matching identifier at `i` and nowhere earlier, the insertion
/// is an update in place.
pub proof fn lemma_am_insert_char(
    acc: Seq<(Seq<char>, ArchiveModel)>,
    id: Seq<char>,
    am: ArchiveModel,
    i: int,
)
    requires
        0 <= i < acc.len(),
        acc[i].0 == id,
        forall|k: int| 0 <= k < i ==> (#[trigger] acc[k]).0 != id,
    ensures
        spec_am_insert(acc, id, am) == acc.update(i, (id, am)),
    decreases acc.len(),
{
    if i == 0 {
        assert(seq![(id, am)] + acc.drop_first() =~= acc.update(0, (id, am)));
    } else {
        let t = acc.drop_first();
        assert(forall|k: int| 0 <= k < i - 1 ==> (#[trigger] t[k]).0 != id);
        lemma_am_insert_char(t, id, am, i - 1);
        assert(seq![acc[0]] + t.update(i - 1, (id, am)) =~= acc.update(i, (id, am)));
    }
}

/// With no matching identifier present, the insertion appends.
pub proof fn lemma_am_insert_fresh(
    acc: Seq<(Seq<char>, ArchiveModel)>,
    id: Seq<char>,
    am: ArchiveModel,
)
    requires
        forall|k: int| 0 <= k < acc.len() ==> (#[trigger] acc[k]).0 != id,
    ensures
        spec_am_insert(acc, id, am) == acc.push((id, am)),
    decreases acc.len(),
{
    if acc.len() == 0 {
        assert(seq![(id, am)] =~= acc.push((id, am)));
    } else {
        let t = acc.drop_first();
        assert(forall|k: int| 0 <= k < t.len() ==> (#[trigger] t[k]).0 != id);
        lemma_am_insert_fresh(t, id, am);
        assert(seq![acc[0]] + t.push((id, am)) =~= acc.push((id, am)));
    }
}

/// One identifier-archive pair in the text form.
pub open spec fn ser_am_entry(e: (Seq<char>, ArchiveModel)) -> Seq<char> {
    spec_ser_string(e.0) + seq![':'] + ser_archive(e.1)
}

/// The comma-joined entries of the archive index.
pub open spec fn ser_am_entries(s: Seq<(Seq<char>, ArchiveModel)>) -> Seq<char>
    decreases s.len(),
{
    if s.len() == 0 {
        Seq::empty()
    } else if s.len() == 1 {
        ser_am_entry(s[0])
    } else {
        ser_am_entry(s[0]) + seq![','] + ser_am_entries(s.drop_first())
    }
}

/// The archive index in the text form.
pub open spec fn ser_am_map(s: Seq<(Seq<char>, ArchiveModel)>) -> Seq<char> {
    seq!['{'] + ser_am_entries(s) + seq!['}']
}

/// A manager in the text form.
pub open spec fn ser_manager(m: ManagerModel) -> Seq<char> {
    "{\"version\":"@ + spec_dec_digits(m.version as int) + ",\"archives\":"@ + ser_am_map(
        m.archives,
    ) + seq!['}']
}

/// Reading the archive index entries, folded by keyed insertion.
pub open spec fn parse_am_items(
    s: Seq<char>,
    i: int,
    acc: Seq<(Seq<char>, ArchiveModel)>,
) -> Option<(Seq<(Seq<char>, ArchiveModel)>, int)>
    decreases s.len() - i,
{
    match spec_parse_string(s, i) {
        None => None,
        Some((id, j1)) => if !(j1 < s.len() && s[j1] == ':') {
            None
        } else {
            match parse_archive(s, j1 + 1) {
                None => None,
                Some((am, j2)) => {
                    let acc2 = spec_am_insert(acc, id, am);
                    if j2 < s.len() && s[j2] == '}' {
                        Some((acc2, j2 + 1))
                    } else if j2 < s.len() && s[j2] == ',' && i < j2 + 1 <= s.len() {
                        parse_am_items(s, j2 + 1, acc2)
                    } else {
                        None
                    }
                },
            }
        },
    }
}

/// Reading the whole archive index.
pub open spec fn parse_am_map(s: Seq<char>, i: int) -> Option<
    (Seq<(Seq<char>, ArchiveModel)>, int),
> {
    if !(0 <= i && i < s.len() && s[i] == '{') {
        None
    } else if i + 1 < s.len() && s[i + 1] == '}' {
        Some((Seq::empty(), i + 2))
    } else {
        parse_am_items(s, i + 1, Seq::empty())
    }
}

/// Reading a manager.
pub open spec fn parse_manager(s: Seq<char>, i: int) -> Option<(ManagerModel, int)> {
    match parse_lit(s, i, "{\"version\":"@) {
        None => None,
        Some(i1) => match spec_parse_u32(s, i1) {
            None => None,
            Some((version, i2)) => match parse_lit(s, i2, ",\"archives\":"@) {
                None => None,
                Some(i3) => match parse_am_map(s, i3) {
                    None => None,
                    Some((archives, i4)) => if i4 < s.len() && s[i4] == '}' {
                        Some((ManagerModel { version, archives }, i4 + 1))
                    } else {
                        None
                    },
                },
            },
        },
    }
}

/// Reading written index entries back extends the fold by exactly them.
#[verifier::spinoff_prover]
#[verifier::rlimit(100)]
pub proof fn lemma_parse_ser_am_items(
    s: Seq<char>,
    i: int,
    acc: Seq<(Seq<char>, ArchiveModel)>,
    m: Seq<(Seq<char>, ArchiveModel)>,
)
    requires
        m.len() > 0,
        forall|a: int, b: int|
            0 <= a < b < (acc + m).len() ==> (#[trigger] (acc + m)[a]).0 != (#[trigger] (acc
                + m)[b]).0,
        forall|k: int| 0 <= k < m.len() ==> archive_model_wf((#[trigger] m[k]).1),
        matches_at(s, i, ser_am_entries(m) + seq!['}']),
    ensures
        parse_am_items(s, i, acc) == Some((acc + m, i + ser_am_entries(m).len() + 1)),
    decreases m.len(),
{
    let e = m[0];
    let ktxt = spec_ser_string(e.0);
    let vtxt = ser_archive(e.1);
    assert(ser_am_entry(e) == ktxt + seq![':'] + vtxt);
    assert(archive_model_wf(e.1));
    assert forall|k: int| 0 <= k < acc.len() implies (#[trigger] acc[k]).0 != e.0 by {
        assert((acc + m)[k] == acc[k]);
        assert((acc + m)[acc.len() as int] == e);
    }
    lemma_am_insert_fresh(acc, e.0, e.1);
    assert(spec_am_insert(acc, e.0, e.1) == acc.push(e));
    assert(acc.push(e) =~= acc + seq![e]);
    if m.len() == 1 {
        assert(ser_am_entries(m) == ser_am_entry(e));
        assert(ser_am_entries(m) + seq!['}'] =~= (ktxt + seq![':'] + vtxt) + seq!['}']);
        lemma_matches_at_split(s, i, ktxt + seq![':'] + vtxt, seq!['}']);
        lemma_matches_at_split(s, i, ktxt + seq![':'], vtxt);
        lemma_matches_at_split(s, i, ktxt, seq![':']);
        lemma_parse_ser_string(s, i, e.0);
        lemma_matches_at_index(s, i + ktxt.len(), seq![':'], 0);
        lemma_parse_ser_archive(s, i + ktxt.len() + 1, e.1);
        lemma_matches_at_index(s, i + ser_am_entries(m).len(), seq!['}'], 0);
        assert(acc + m =~= acc + seq![e]);
    } else {
        let rest = m.drop_first();
        assert(ser_am_entries(m) == ser_am_entry(e) + seq![','] + ser_am_entries(rest));
        assert(ser_am_entries(m) + seq!['}'] =~= ktxt + (seq![':'] + (vtxt + (seq![','] + (
        ser_am_entries(rest) + seq!['}'])))));
        lemma_matches_at_split(s, i, ktxt, seq![':'] + (vtxt + (seq![','] + (ser_am_entries(rest)
            + seq!['}']))));
        lemma_parse_ser_string(s, i, e.0);
        let i1 = i + ktxt.len();
        lemma_matches_at_split(s, i1, seq![':'], vtxt + (seq![','] + (ser_am_entries(rest)
            + seq!['}'])));
        lemma_matches_at_index(s, i1, seq![':'], 0);
        let i2 = i1 + 1;
        lemma_matches_at_split(s, i2, vtxt, seq![','] + (ser_am_entries(rest) + seq!['}']));
        lemma_parse_ser_archive(s, i2, e.1);
        let i3 = i2 + vtxt.len();
        lemma_matches_at_split(s, i3, seq![','], ser_am_entries(rest) + seq!['}']);
        lemma_matches_at_index(s, i3, seq![','], 0);
        let i4 = i3 + 1;
        assert forall|a: int, b: int|
            0 <= a < b < ((acc + seq![e]) + rest).len() implies (#[trigger] ((acc + seq![e])
            + rest)[a]).0 != (#[trigger] ((acc + seq![e]) + rest)[b]).0 by {
            assert((acc + seq![e]) + rest =~= acc + m);
            assert(((acc + seq![e]) + rest)[a] == (acc + m)[a]);
            assert(((acc + seq![e]) + rest)[b] == (acc + m)[b]);
        }
        lemma_parse_ser_am_items(s, i4, acc + seq![e], rest);
        assert((acc + seq![e]) + rest =~= acc + m);
        assert(s[i3] == ',' && !(s[i3] == '}'));
    }
}

/// Reading a written archive index back yields its entries again.
pub proof fn lemma_parse_ser_am_map(s: Seq<char>, i: int, m: Seq<(Seq<char>, ArchiveModel)>)
    requires
        forall|a: int, b: int|
            0 <= a < b < m.len() ==> (#[trigger] m[a]).0 != (#[trigger] m[b]).0,
        forall|k: int| 0 <= k < m.len() ==> archive_model_wf((#[trigger] m[k]).1),
        matches_at(s, i, ser_am_map(m)),
    ensures
        parse_am_map(s, i) == Some((m, i + ser_am_map(m).len())),
{
    assert(ser_am_map(m) =~= seq!['{'] + (ser_am_entries(m) + seq!['}']));
    lemma_matches_at_split(s, i, seq!['{'], ser_am_entries(m) + seq!['}']);
    lemma_matches_at_index(s, i, seq!['{'], 0);
    if m.len() == 0 {
        assert(ser_am_entries(m) == Seq::<char>::empty());
        lemma_matches_at_index(s, i + 1, ser_am_entries(m) + seq!['}'], 0);
        assert(s[i + 1] == '}');
    } else {
        assert(Seq::<(Seq<char>, ArchiveModel)>::empty() + m =~= m);
        lemma_parse_ser_am_items(s, i + 1, Seq::empty(), m);
        let ktxt = spec_ser_string(m[0].0);
        assert(ser_am_entries(m) + seq!['}'] =~= ktxt + ((ser_am_entries(m) + seq![
            '}',
        ]).skip(ktxt.len() as int))) by {
            if m.len() == 1 {
                assert(ser_am_entries(m) == ser_am_entry(m[0]));
            }
        }
        lemma_matches_at_split(s, i + 1, ktxt, (ser_am_entries(m) + seq!['}']).skip(
            ktxt.len() as int,
        ));
        lemma_matches_at_index(s, i + 1, ktxt, 0);
        assert(s[i + 1] == '"');
    }
}

/// Reading a written manager back yields it again.
#[verifier::spinoff_prover]
#[verifier::rlimit(100)]
pub proof fn lemma_parse_ser_manager(s: Seq<char>, i: int, m: ManagerModel)
    requires
        manager_model_wf(m),
        matches_at(s, i, ser_manager(m)),
    ensures
        parse_manager(s, i) == Some((m, i + ser_manager(m).len())),
{
    reveal_strlit("{\"version\":");
    reveal_strlit(",\"archives\":");
    let l1 = "{\"version\":"@;
    let p1 = spec_dec_digits(m.version as int);
    let l2 = ",\"archives\":"@;
    let p2 = ser_am_map(m.archives);
    crate::numtext::lemma_pad_shape(
        m.version as int,
        crate::numtext::spec_ndigits(m.version as int, 10),
        10,
    );
    assert(ser_manager(m) == l1 + p1 + l2 + p2 + seq!['}']);
    lemma_matches_at_split(s, i, l1 + p1 + l2 + p2, seq!['}']);
    lemma_matches_at_split(s, i, l1 + p1 + l2, p2);
    lemma_matches_at_split(s, i, l1 + p1, l2);
    lemma_matches_at_split(s, i, l1, p1);
    let o1 = i + l1.len();
    let o2 = o1 + p1.len();
    let o3 = o2 + l2.len();
    let o4 = o3 + p2.len();
    lemma_matches_at_index(s, o2, l2, 0);
    assert(s[o2] == ',');
    assert(!spec_is_dec_digit(','));
    lemma_parse_ser_u32(s, o1, m.version);
    lemma_parse_ser_am_map(s, o3, m.archives);
    lemma_matches_at_index(s, o4, seq!['}'], 0);
    assert(s[o4] == '}');
}

/// Writes a manager, its archives stored in full under their identifiers.
pub fn emit_manager(out: &mut String, m: &crate::manager::Manager)
    ensures
        final(out)@ == old(out)@ + ser_manager(manager_model(*m)),
{
    out.append("{\"version\":");
    emit_u32(out, m.version);
    out.append(",\"archives\":");
    push_char(out, '{');
    let n = m.len();
    for k in 0..n
        invariant
            n == m.archives_seq().len(),
            out@ == old(out)@ + "{\"version\":"@ + spec_dec_digits(m.version as int)
                + ",\"archives\":"@ + seq!['{'] + ser_am_entries(
                manager_model(*m).archives.take(k as int),
            ),
    {
        let entry = m.archive_at(k);
        if k > 0 {
            push_char(out, ',');
        }
        emit_string(out, entry.0.as_str());
        push_char(out, ':');
        emit_archive(out, &entry.1);
        proof {
            let mm = manager_model(*m).archives;
            lemma_ser_am_entries_snoc(mm.take(k as int + 1));
            assert(mm.take(k as int + 1).drop_last() =~= mm.take(k as int));
            assert(mm.take(k as int + 1).last() == mm[k as int]);
            assert(mm[k as int] == (m.archives_seq()[k as int].0@, archive_model(
                m.archives_seq()[k as int].1,
            )));
            assert(out@ =~= old(out)@ + "{\"version\":"@ + spec_dec_digits(m.version as int)
                + ",\"archives\":"@ + seq!['{'] + ser_am_entries(mm.take(k as int + 1)));
        }
    }
    push_char(out, '}');
    push_char(out, '}');
    proof {
        let mm = manager_model(*m).archives;
        assert(mm.take(n as int) =~= mm);
        assert(out@ =~= old(out)@ + ser_manager(manager_model(*m)));
    }
}

/// The index text grows at its end as entries are appended.
pub proof fn lemma_ser_am_entries_snoc(m: Seq<(Seq<char>, ArchiveModel)>)
    requires
        m.len() > 0,
    ensures
        m.len() == 1 ==> ser_am_entries(m) == ser_am_entry(m[0]),
        m.len() > 1 ==> ser_am_entries(m) == ser_am_entries(m.drop_last()) + seq![',']
            + ser_am_entry(m.last()),
    decreases m.len(),
{
    if m.len() > 1 {
        let t = m.drop_first();
        lemma_ser_am_entries_snoc(t);
        assert(m.drop_last().drop_first() =~= t.drop_last());
        assert(m.drop_last()[0] == m[0]);
        assert(t.last() == m.last());
        if m.len() == 2 {
            assert(m.drop_last().len() == 1);
            assert(ser_am_entries(m.drop_last()) == ser_am_entry(m[0]));
            assert(ser_am_entries(t) == ser_am_entry(t[0]));
            assert(ser_am_entries(m) =~= ser_am_entries(m.drop_last()) + seq![','] + ser_am_entry(
                m.last(),
            ));
        } else {
            assert(m.drop_last().len() > 1);
            assert(ser_am_entries(m.drop_last()) == ser_am_entry(m[0]) + seq![','] + ser_am_entries(
                t.drop_last(),
            ));
            assert(ser_am_entries(m) =~= ser_am_entries(m.drop_last()) + seq![','] + ser_am_entry(
                m.last(),
            ));
        }
    }
}

/// Reads a manager's archive index starting at `i`, building a manager
/// whose path is left empty for the caller to inject.
pub fn parse_manager_at(s: &Vec<char>, i: usize) -> (r: Option<(crate::manager::Manager, usize)>)
    requires
        i <= s@.len(),
    ensures
        match parse_manager(s@, i as int) {
            Some((m, j)) => r matches Some(p) && manager_model(p.0) == m && p.0.wf()
                && p.0.path@ == Seq::<char>::empty() && p.1 as int == j && p.1 <= s@.len(),
            None => r is None,
        },
{
    let i1 = match parse_lit_at(s, i, "{\"version\":") {
        None => {
            return None;
        },
        Some(x) => x,
    };
    let (version, i2) = match parse_u32_at(s, i1) {
        None => {
            return None;
        },
        Some(p) => p,
    };
    let i3 = match parse_lit_at(s, i2, ",\"archives\":") {
        None => {
            return None;
        },
        Some(x) => x,
    };
    let (mgr0, i4) = match parse_am_map_at(s, i3, version) {
        None => {
            return None;
        },
        Some(p) => p,
    };
    if !(i4 < s.len() && s[i4] == '}') {
        return None;
    }
    Some((mgr0, i4 + 1))
}

/// Reads the archive index into a fresh manager carrying `version`.
fn parse_am_map_at(s: &Vec<char>, i: usize, version: u32) -> (r: Option<
    (crate::manager::Manager, usize),
>)
    requires
        i <= s@.len(),
    ensures
        match parse_am_map(s@, i as int) {
            Some((m, j)) => r matches Some(p) && manager_model(p.0).archives == m
                && manager_model(p.0).version == version && p.0.wf()
                && p.0.path@ == Seq::<char>::empty() && p.1 as int == j && p.1 <= s@.len(),
            None => r is None,
        },
{
    if !(i < s.len() && s[i] == '{') {
        return None;
    }
    let mut mgr = crate::manager::Manager::new(String::new());
    mgr.version = version;
    proof {
        assert(manager_model(mgr).archives =~= Seq::<(Seq<char>, ArchiveModel)>::empty());
    }
    if i + 1 < s.len() && s[i + 1] == '}' {
        return Some((mgr, i + 2));
    }
    let mut cur: usize = i + 1;
    loop
        invariant
            i + 1 <= cur <= s@.len(),
            mgr.wf(),
            mgr.version == version,
            mgr.path@ == Seq::<char>::empty(),
            parse_am_map(s@, i as int) == parse_am_items(s@, i as int + 1, Seq::empty()),
            parse_am_items(s@, i as int + 1, Seq::empty()) == parse_am_items(
                s@,
                cur as int,
                manager_model(mgr).archives,
            ),
        decreases s@.len() - cur,
    {
        let ghost acc0 = manager_model(mgr).archives;
        let (id, j1) = match parse_string_at(s, cur) {
            None => {
                return None;
            },
            Some(p) => p,
        };
        proof {
            crate::wire::lemma_parse_string_shape(s@, cur as int);
        }
        if !(j1 < s.len() && s[j1] == ':') {
            return None;
        }
        let (arch, j2) = match parse_archive_at(s, j1 + 1) {
            None => {
                return None;
            },
            Some(p) => p,
        };
        proof {
            lemma_parse_archive_shape(s@, j1 as int + 1);
        }
        let ghost idm = id@;
        let ghost am = archive_model(arch);
        let ghost old_mgr = mgr;
        mgr.insert_existing(id, arch);
        proof {
            let as0 = old_mgr.archives_seq();
            assert(acc0.len() == as0.len());
            assert forall|k: int| 0 <= k < as0.len() implies (#[trigger] acc0[k]).0
                == as0[k].0@ by {
                assert(acc0[k] == (as0[k].0@, archive_model(as0[k].1)));
            }
            if old_mgr.spec_has(idm) {
                let wi = choose|wi: int|
                    #![auto]
                    0 <= wi < as0.len() && as0[wi].0@ == idm && mgr.archives_seq()
                        == as0.update(wi, (id, arch));
                assert forall|k: int| 0 <= k < wi implies (#[trigger] acc0[k]).0 != idm by {
                    assert(as0[k].0@ != as0[wi].0@);
                }
                lemma_am_insert_char(acc0, idm, am, wi);
                assert(manager_model(mgr).archives =~= acc0.update(wi, (idm, am)));
            } else {
                assert forall|k: int| 0 <= k < acc0.len() implies (#[trigger] acc0[k]).0
                    != idm by {
                    if acc0[k].0 == idm {
                        assert(as0[k].0@ == idm);
                        assert(old_mgr.spec_has(idm));
                    }
                }
                lemma_am_insert_fresh(acc0, idm, am);
                assert(manager_model(mgr).archives =~= acc0.push((idm, am)));
            }
            assert(manager_model(mgr).archives == spec_am_insert(acc0, idm, am));
        }
        if j2 < s.len() && s[j2] == '}' {
            proof {
                assert(parse_am_items(s@, cur as int, acc0) == Some(
                    (manager_model(mgr).archives, j2 as int + 1),
                ));
            }
            return Some((mgr, j2 + 1));
        }
        if j2 < s.len() && s[j2] == ',' {
            cur = j2 + 1;
        } else {
            return None;
        }
    }
}

/// The whole-text reading of a manager: nothing may follow it.
pub open spec fn manager_from_data(s: Seq<char>) -> Option<ManagerModel> {
    match parse_manager(s, 0) {
        Some((m, j)) => if j == s.len() {
            Some(m)
        } else {
            None
        },
        None => None,
    }
}

/// Writing a well-formed manager and reading the text back yields it
/// again, but for the paths, which the stored form does not carry.
pub proof fn lemma_manager_round_trip(m: crate::manager::Manager)
    requires
        m.wf(),
    ensures
        manager_from_data(ser_manager(manager_model(m))) == Some(manager_model(m)),
{
    lemma_manager_model_wf(m);
    let t = ser_manager(manager_model(m));
    assert(t.subrange(0, t.len() as int) =~= t);
    assert(matches_at(t, 0, t));
    lemma_parse_ser_manager(t, 0, manager_model(m));
}

impl crate::manager::Manager {
    /// The stored text of this manager, archives embedded in full.
    pub fn to_data_str(&self) -> (r: Result<String, crate::errors::Error>)
        ensures
            r matches Ok(t) && t@ == ser_manager(manager_model(*self)),
    {
        let mut out = String::new();
        emit_manager(&mut out, self);
        Ok(out)
    }

    /// Rebuilds a manager from its stored text and ties it to `path`.
    /// The embedded archives come back with empty paths, as the stored
    /// form does not carry them. Fails exactly when the text is not a
    /// whole manager.
    pub fn from_data_str(path: String, data: &str) -> (r: Result<
        crate::manager::Manager,
        crate::errors::Error,
    >)
        ensures
            match manager_from_data(data@) {
                Some(m) => r matches Ok(mg) && manager_model(mg) == m && mg.path == path
                    && mg.wf(),
                None => r == Err::<crate::manager::Manager, _>(crate::errors::Error::DataLoad),
            },
    {
        let chars = str_to_chars(data);
        match parse_manager_at(&chars, 0) {
            None => Err(crate::errors::Error::DataLoad),
            Some((m0, j)) => {
                if j == chars.len() {
                    let mut m = m0;
                    m.path = path;
                    Ok(m)
                } else {
                    Err(crate::errors::Error::DataLoad)
                }
            },
        }
    }
}

} // verus!
