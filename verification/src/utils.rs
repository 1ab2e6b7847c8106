use vstd::prelude::*;

use crate::dbconnector::{Entity, EntityView};

verus! {

/// `s` holds no `.`.
pub open spec fn dot_free(s: Seq<char>) -> bool {
    forall|j: int| 0 <= j < s.len() ==> s[j] != '.'
}

/// The number of characters before the first `.` of `s` (all of them when
/// `s` holds none).
pub open spec fn segment_len(s: Seq<char>) -> nat
    decreases s.len(),
{
    if s.len() == 0 {
        0
    } else if s[0] == '.' {
        0
    } else {
        1 + segment_len(s.drop_first())
    }
}

/// What an argument `schema.name` names: the text before the first `.` and
/// the text between the first `.` and the next one (or the end). `None` when
/// the argument holds no `.`.
pub open spec fn spec_parse_argument(s: Seq<char>) -> Option<(Seq<char>, Seq<char>)> {
    let i = segment_len(s) as int;
    if i < s.len() {
        let rest = s.skip(i + 1);
        Some((s.take(i), rest.take(segment_len(rest) as int)))
    } else {
        None
    }
}

/// The message that refuses an argument without a `.`.
pub open spec fn argument_error(s: Seq<char>) -> Seq<char> {
    "Invalid argument provided: "@ + s
}

/// `s` with one trailing line break (`\r\n` or `\n`) taken off.
pub open spec fn stripped(s: Seq<char>) -> Seq<char> {
    if s.len() >= 2 && s[s.len() - 2] == '\r' && s[s.len() - 1] == '\n' {
        s.take(s.len() - 2)
    } else if s.len() >= 1 && s[s.len() - 1] == '\n' {
        s.take(s.len() - 1)
    } else {
        s
    }
}

/// `schema.name`.
pub open spec fn qualified(schema: Seq<char>, name: Seq<char>) -> Seq<char> {
    schema + seq!['.'] + name
}

/// The first `i` characters of `s` hold no `.`, and the one at `i` (if any)
/// is a `.`: then `i` is the segment length.
pub proof fn lemma_segment_len(s: Seq<char>, i: int)
    requires
        0 <= i <= s.len(),
        forall|j: int| 0 <= j < i ==> s[j] != '.',
        i == s.len() || s[i] == '.',
    ensures
        segment_len(s) == i,
    decreases i,
{
    if i > 0 {
        lemma_segment_len(s.drop_first(), i - 1);
    }
}

/// The segment length is a position in `s`, everything before it is not a
/// `.`, and it stops at a `.` unless it reaches the end.
pub proof fn lemma_segment_bounds(s: Seq<char>)
    ensures
        segment_len(s) <= s.len(),
        forall|j: int| 0 <= j < segment_len(s) ==> s[j] != '.',
        segment_len(s) == s.len() || s[segment_len(s) as int] == '.',
    decreases s.len(),
{
    if s.len() > 0 && s[0] != '.' {
        lemma_segment_bounds(s.drop_first());
        assert forall|j: int| 0 <= j < segment_len(s) implies s[j] != '.' by {
            if j > 0 {
                assert(s[j] == s.drop_first()[j - 1]);
            }
        }
    }
}

/// Finds the first `.` of `s` at or after `from`.
fn find_dot(s: &str, from: usize) -> (r: usize)
    requires
        from <= s@.len(),
    ensures
        r == from + segment_len(s@.skip(from as int)),
        from <= r <= s@.len(),
{
    let n = s.unicode_len();
    let mut i = from;
    while i < n && s.get_char(i) != '.'
        invariant
            n == s@.len(),
            from <= i <= n,
            forall|j: int| from <= j < i ==> s@[j] != '.',
        decreases n - i,
    {
        i = i + 1;
    }
    proof {
        let t = s@.skip(from as int);
        assert forall|j: int| 0 <= j < i - from implies t[j] != '.' by {
            assert(t[j] == s@[from + j]);
        }
        lemma_segment_len(t, i - from);
    }
    i
}

/// Splits an argument `schema.name` into the table that it names. The
/// entity has no columns and exists. An argument without a `.` is refused
/// with the message `Invalid argument provided: <argument>`.
pub fn parse_argument(argument: &str) -> (r: Result<Entity, String>)
    ensures
        match r {
            Ok(e) => {
                &&& spec_parse_argument(argument@) == Some((e.schema@, e.name@))
                &&& e.columns@.len() == 0
                &&& e.exists
            },
            Err(m) => {
                &&& spec_parse_argument(argument@) is None
                &&& m@ == argument_error(argument@)
            },
        },
{
    let n = argument.unicode_len();
    let i = find_dot(argument, 0);
    assert(argument@.skip(0) =~= argument@);
    if i == n {
        let mut m = String::from_str("Invalid argument provided: ");
        m.append(argument);
        return Err(m);
    }
    let j = find_dot(argument, i + 1);
    let schema = String::from_str(argument.substring_char(0, i));
    let name = String::from_str(argument.substring_char(i + 1, j));
    proof {
        let rest = argument@.skip(i + 1);
        assert(name@ =~= rest.take(segment_len(rest) as int));
    }
    Ok(Entity { schema, name, columns: Vec::new(), exists: true })
}

/// Takes one trailing line break (`\r\n` or `\n`) off a line of input.
pub fn strip_trailing_newline(input: &str) -> (r: String)
    ensures
        r@ == stripped(input@),
{
    let n = input.unicode_len();
    let mut keep = n;
    if n >= 2 && input.get_char(n - 2) == '\r' && input.get_char(n - 1) == '\n' {
        keep = n - 2;
    } else if n >= 1 && input.get_char(n - 1) == '\n' {
        keep = n - 1;
    }
    let r = String::from_str(input.substring_char(0, keep));
    assert(keep == n ==> r@ =~= input@);
    r
}

/// The name `schema.name` under which a table is shown and addressed.
pub fn qualified_name(e: &Entity) -> (r: String)
    ensures
        r@ == qualified(e.schema@, e.name@),
{
    let mut r = e.schema.clone();
    r.append(".");
    proof {
        reveal_strlit(".");
    }
    r.append(e.name.as_str());
    assert(r@ =~= qualified(e.schema@, e.name@));
    r
}

/// Splitting `schema.name` gives back the schema and the name, where
/// neither holds a `.`.
pub proof fn lemma_parse_qualified(schema: Seq<char>, name: Seq<char>)
    requires
        dot_free(schema),
        dot_free(name),
    ensures
        spec_parse_argument(qualified(schema, name)) == Some((schema, name)),
{
    let s = qualified(schema, name);
    assert forall|j: int| 0 <= j < schema.len() implies s[j] != '.' by {
        assert(s[j] == schema[j]);
    }
    lemma_segment_len(s, schema.len() as int);
    let rest = s.skip(schema.len() + 1int);
    assert(rest =~= name);
    lemma_segment_len(name, name.len() as int);
    assert(s.take(schema.len() as int) =~= schema);
    assert(name.take(name.len() as int) =~= name);
}

/// An argument is accepted exactly when it holds a `.`; then the schema and
/// the name hold no `.`, the argument begins with `schema.name`, and what
/// follows (if anything) begins with a `.`.
pub proof fn lemma_parse_shape(s: Seq<char>)
    ensures
        spec_parse_argument(s) is Some <==> !dot_free(s),
        spec_parse_argument(s) matches Some((schema, name)) ==> {
            &&& dot_free(schema)
            &&& dot_free(name)
            &&& s.take(schema.len() + 1int + name.len()) == qualified(schema, name)
            &&& (s.len() == schema.len() + 1int + name.len() || s[schema.len() + 1int + name.len()] == '.')
        },
{
    lemma_segment_bounds(s);
    let i = segment_len(s) as int;
    if i < s.len() {
        let rest = s.skip(i + 1);
        lemma_segment_bounds(rest);
        let k = segment_len(rest) as int;
        assert(s.take(i + 1 + k) =~= qualified(s.take(i), rest.take(k)));
        if i + 1 + k < s.len() {
            assert(s[i + 1 + k] == rest[k]);
        }
        assert forall|j: int| 0 <= j < k implies rest.take(k)[j] != '.' by {
        }
    } else {
        assert(dot_free(s));
    }
}

} // verus!
