//! What a CSV reader takes from an exported row.
use crate::audit::export;
use crate::text;
use vstd::prelude::*;

verus! {

/// How far a field without quotes goes: up to the first comma.
pub open spec fn bare_run(s: Seq<char>) -> int
    decreases s.len(),
{
    if s.len() == 0 || s[0] == ',' {
        0
    } else {
        1 + bare_run(s.skip(1))
    }
}

/// How far the inside of quotes goes: up to the first quote that is not
/// doubled.
pub open spec fn inside_run(s: Seq<char>) -> int
    decreases s.len(),
{
    if s.len() == 0 {
        0
    } else if s[0] != '"' {
        1 + inside_run(s.skip(1))
    } else if s.len() >= 2 && s[1] == '"' {
        2 + inside_run(s.skip(2))
    } else {
        0
    }
}

/// A field at the start of a text, and what comes after it. A quote or a line
/// end stands in quotes only.
pub open spec fn read_field(s: Seq<char>) -> Option<(Seq<char>, Seq<char>)> {
    if s.len() > 0 && s[0] == '"' {
        let n = inside_run(s.skip(1));
        if n + 1 < s.len() {
            Some((export::undoubled(s.skip(1).take(n)), s.skip(n + 2)))
        } else {
            None
        }
    } else {
        let n = bare_run(s);
        if export::needs_quotes(s.take(n)) {
            None
        } else {
            Some((s.take(n), s.skip(n)))
        }
    }
}

/// The fields of a row, in order.
pub open spec fn read_row(s: Seq<char>) -> Option<Seq<Seq<char>>>
    decreases s.len(),
{
    match read_field(s) {
        None => None,
        Some((field, rest)) => if rest.len() == 0 {
            Some(seq![field])
        } else if rest.len() <= s.len() && rest[0] == ',' {
            match read_row(rest.skip(1)) {
                Some(more) => Some(seq![field] + more),
                None => None,
            }
        } else {
            None
        },
    }
}

/// Whether a raw field stands for a text: in quotes, or bare where nothing in
/// the text needs them.
pub open spec fn stands_for(raw: Seq<char>, value: Seq<char>) -> bool {
    raw == text::quoted(export::doubled(value)) || (raw == value && !export::needs_quotes(value))
}

/// Raw fields as a row.
pub open spec fn row_text(fields: Seq<Seq<char>>) -> Seq<char>
    decreases fields.len(),
{
    if fields.len() == 0 {
        Seq::empty()
    } else if fields.len() == 1 {
        fields[0]
    } else {
        fields[0] + (seq![','] + row_text(fields.skip(1)))
    }
}

/// A text without quotes has none to double.
pub(crate) proof fn lemma_nothing_to_double(s: Seq<char>)
    requires
        !s.contains('"'),
    ensures
        export::doubled(s) == s,
    decreases s.len(),
{
    if s.len() > 0 {
        let less = s.drop_last();
        assert(s.contains(s.last()));
        if less.contains('"') {
            assert(s[less.index_of('"')] == '"');
        }
        lemma_nothing_to_double(less);
        assert(export::doubled(s) =~= s);
    }
}

proof fn lemma_bare_run(s: Seq<char>, rest: Seq<char>)
    requires
        !s.contains(','),
        rest.len() == 0 || rest[0] == ',',
    ensures
        bare_run(s + rest) == s.len(),
    decreases s.len(),
{
    if s.len() == 0 {
        assert(s + rest =~= rest);
    } else {
        let less = s.skip(1);
        assert(s.contains(s[0]));
        if less.contains(',') {
            assert(s[less.index_of(',') + 1] == ',');
        }
        lemma_bare_run(less, rest);
        assert((s + rest).skip(1) =~= less + rest);
    }
}

/// The inside of quotes ends where its text does.
proof fn lemma_inside_run(value: Seq<char>, rest: Seq<char>)
    requires
        rest.len() == 0 || rest[0] == ',',
    ensures
        inside_run(export::doubled(value) + seq!['"'] + rest) == export::doubled(value).len(),
    decreases value.len(),
{
    let s = export::doubled(value) + seq!['"'] + rest;
    if value.len() == 0 {
        assert(s =~= seq!['"'] + rest);
    } else {
        let less = value.skip(1);
        assert(value =~= seq![value[0]] + less);
        export::lemma_doubled_front(value[0], less);
        lemma_inside_run(less, rest);
        let after = export::doubled(less) + seq!['"'] + rest;
        if value[0] == '"' {
            assert(s.skip(2) =~= after);
        } else {
            assert(s.skip(1) =~= after);
        }
    }
}

/// What stands for a text is read as that text.
proof fn lemma_read_field(raw: Seq<char>, value: Seq<char>, rest: Seq<char>)
    requires
        stands_for(raw, value),
        rest.len() == 0 || rest[0] == ',',
    ensures
        read_field(raw + rest) == Some((value, rest)),
{
    let s = raw + rest;
    let inside = export::doubled(value);
    if raw == text::quoted(inside) {
        assert(s.skip(1) =~= inside + seq!['"'] + rest);
        lemma_inside_run(value, rest);
        assert(s.skip(1).take(inside.len() as int) =~= inside);
        assert(s.skip(inside.len() as int + 2) =~= rest);
        export::lemma_undoubled_reads_back(value);
    } else {
        if s.len() > 0 && s[0] == '"' {
            assert(value.contains(s[0]));
        }
        lemma_bare_run(value, rest);
        assert(s.take(value.len() as int) =~= value);
        assert(s.skip(value.len() as int) =~= rest);
    }
}

/// Fields are read back one for one, where each raw field stands for its text.
pub(crate) proof fn lemma_row_reads_back(fields: Seq<Seq<char>>, values: Seq<Seq<char>>)
    requires
        fields.len() == values.len(),
        fields.len() > 0,
        forall|i: int| 0 <= i < fields.len() ==> stands_for(#[trigger] fields[i], values[i]),
    ensures
        read_row(row_text(fields)) == Some(values),
    decreases fields.len(),
{
    let s = row_text(fields);
    let (less, rest) = (fields.skip(1), values.skip(1));
    let tail = if fields.len() == 1 {
        Seq::empty()
    } else {
        seq![','] + row_text(less)
    };
    assert(s =~= fields[0] + tail);
    lemma_read_field(fields[0], values[0], tail);
    if fields.len() == 1 {
        assert(values =~= seq![values[0]]);
    } else {
        assert forall|i: int| 0 <= i < less.len() implies stands_for(#[trigger] less[i], rest[i]) by {
            assert(less[i] == fields[i + 1] && rest[i] == values[i + 1]);
        }
        lemma_row_reads_back(less, rest);
        assert(tail.skip(1) =~= row_text(less));
        assert(values =~= seq![values[0]] + rest);
    }
}

} // verus!
