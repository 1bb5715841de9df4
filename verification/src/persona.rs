//! What the persona-profile server decides: which database it reads, what it answers when the
//! graph cannot be read, and how a path is embedded in the viewer page.

use crate::graph_analytics::{KgEdge, KgNode};
use vstd::prelude::*;
use vstd::string::StringExecFns;

verus! {

/// Query parameters that name a database file.
#[derive(Debug, Clone)]
pub struct LocalDbQuery {
    pub db: String,
}

// ---------------------------------------------------------------------------
// Choosing a database
// ---------------------------------------------------------------------------

/// The most recently modified of the candidates, given their modification times; the last of
/// them where several were modified at the same time.
pub fn most_recent(mtimes: &Vec<i128>) -> (res: Option<usize>)
    ensures
        match res {
            None => mtimes.len() == 0,
            Some(i) => {
                &&& i < mtimes.len()
                &&& forall|j: int| 0 <= j < mtimes.len() ==> #[trigger] mtimes[j] <= mtimes[i as int]
                &&& forall|j: int| i < j < mtimes.len() ==> #[trigger] mtimes[j] < mtimes[i as int]
            },
        },
{
    if mtimes.len() == 0 {
        return None;
    }
    let mut best: usize = 0;
    let mut i: usize = 1;
    while i < mtimes.len()
        invariant
            1 <= i <= mtimes.len(),
            best < i,
            forall|j: int| 0 <= j < i ==> #[trigger] mtimes[j] <= mtimes[best as int],
            forall|j: int| best < j < i ==> #[trigger] mtimes[j] < mtimes[best as int],
        decreases mtimes.len() - i,
    {
        if mtimes[i] >= mtimes[best] {
            best = i;
        }
        i += 1;
    }
    Some(best)
}

/// The database of a request: the one that its query names, or else the server's.
pub fn requested_db<P>(query: Option<P>, default: P) -> (path: P)
    ensures
        path == match query {
            Some(p) => p,
            None => default,
        },
{
    match query {
        Some(p) => p,
        None => default,
    }
}

// ---------------------------------------------------------------------------
// Answers
// ---------------------------------------------------------------------------

pub const NOT_FOUND: u16 = 404;

pub const INTERNAL_SERVER_ERROR: u16 = 500;

/// A refused request: an HTTP status and a message.
#[derive(Debug, Clone)]
pub struct Refusal {
    pub status: u16,
    pub message: String,
}

/// The nodes and edges of a database, or the text of the error that reading it gave.
pub type LoadedGraph = Result<(Vec<KgNode>, Vec<KgEdge>), String>;

fn refusal(status: u16, start: &str, detail: &String, end: &str) -> (r: Refusal)
    ensures
        r.status == status,
        r.message@ == start@ + detail@ + end@,
{
    let mut message: String = start.to_string();
    message.append(detail.as_str());
    message.append(end);
    Refusal { status, message }
}

/// Refuses a database file that does not exist.
pub fn check_exists(exists: bool, path: &String) -> (res: Result<(), Refusal>)
    ensures
        res is Ok <==> exists,
        res matches Err(r) ==> r.status == NOT_FOUND && r.message@ == "DB file not found: "@
            + path@,
{
    if exists {
        Ok(())
    } else {
        let r = refusal(NOT_FOUND, "DB file not found: ", path, "");
        proof {
            reveal_strlit("");
            assert("DB file not found: "@ + path@ + ""@ =~= "DB file not found: "@ + path@);
        }
        Err(r)
    }
}

/// Refuses a database that could not be read.
pub fn check_loaded(loaded: LoadedGraph) -> (res: Result<(Vec<KgNode>, Vec<KgEdge>), Refusal>)
    ensures
        match loaded {
            Ok(graph) => res == Ok::<(Vec<KgNode>, Vec<KgEdge>), Refusal>(graph),
            Err(e) => res matches Err(r) && r.status == INTERNAL_SERVER_ERROR && r.message@
                == "SQLite read failed: "@ + e@,
        },
{
    match loaded {
        Ok(graph) => Ok(graph),
        Err(e) => {
            let r = refusal(INTERNAL_SERVER_ERROR, "SQLite read failed: ", &e, "");
            proof {
                reveal_strlit("");
                assert("SQLite read failed: "@ + e@ + ""@ =~= "SQLite read failed: "@ + e@);
            }
            Err(r)
        },
    }
}

/// Refuses a database whose knowledge graph has no nodes yet.
pub fn check_populated(nodes: &Vec<KgNode>, path: &String) -> (res: Result<(), Refusal>)
    ensures
        res is Ok <==> nodes.len() > 0,
        res matches Err(r) ==> r.status == NOT_FOUND && r.message@ == "DB "@ + path@
            + " has no local_kg_nodes — app hasn't populated the knowledge graph yet"@,
{
    if nodes.len() > 0 {
        Ok(())
    } else {
        Err(
            refusal(
                NOT_FOUND,
                "DB ",
                path,
                " has no local_kg_nodes — app hasn't populated the knowledge graph yet",
            ),
        )
    }
}

/// What the graph request answers: the graph, or the first reason to refuse it.
pub fn graph_answer(exists: bool, path: &String, loaded: LoadedGraph) -> (res: Result<
    (Vec<KgNode>, Vec<KgEdge>),
    Refusal,
>)
    ensures
        !exists ==> (res matches Err(r) && r.status == NOT_FOUND && r.message@
            == "DB file not found: "@ + path@),
        exists ==> match loaded {
            Err(e) => res matches Err(r) && r.status == INTERNAL_SERVER_ERROR && r.message@
                == "SQLite read failed: "@ + e@,
            Ok(graph) => if graph.0.len() == 0 {
                res matches Err(r) && r.status == NOT_FOUND && r.message@ == "DB "@ + path@
                    + " has no local_kg_nodes — app hasn't populated the knowledge graph yet"@
            } else {
                res == Ok::<(Vec<KgNode>, Vec<KgEdge>), Refusal>(graph)
            },
        },
{
    match check_exists(exists, path) {
        Err(r) => Err(r),
        Ok(()) => match check_loaded(loaded) {
            Err(r) => Err(r),
            Ok(graph) => match check_populated(&graph.0, path) {
                Err(r) => Err(r),
                Ok(()) => Ok(graph),
            },
        },
    }
}

// ---------------------------------------------------------------------------
// Embedding a text in a page, as a JavaScript string literal
// ---------------------------------------------------------------------------

/// A character that may not stand in a literal as it is, because it ends a line.
pub open spec fn ends_line(c: char) -> bool {
    c == '\n' || c == '\r' || c == '\u{2028}' || c == '\u{2029}'
}

/// A character inside a double-quoted literal of a script. Besides what JavaScript asks for, a
/// less-than sign is escaped, because markup could end the script, and so is the null character,
/// which a page cannot hold.
pub open spec fn escaped_char(c: char) -> Seq<char> {
    if c == '\\' || c == '"' {
        seq!['\\', c]
    } else if c == '\n' {
        seq!['\\', 'n']
    } else if c == '\r' {
        seq!['\\', 'r']
    } else if c == '\u{2028}' {
        seq!['\\', 'u', '2', '0', '2', '8']
    } else if c == '\u{2029}' {
        seq!['\\', 'u', '2', '0', '2', '9']
    } else if c == '<' {
        seq!['\\', 'u', '0', '0', '3', 'c']
    } else if c == '\0' {
        seq!['\\', 'u', '0', '0', '0', '0']
    } else {
        seq![c]
    }
}

/// A text inside a double-quoted literal of a script.
pub open spec fn escaped(s: Seq<char>) -> Seq<char>
    decreases s.len(),
{
    if s.len() == 0 {
        Seq::empty()
    } else {
        escaped(s.drop_last()) + escaped_char(s.last())
    }
}

/// The value of a hexadecimal digit.
pub open spec fn hex_value(c: char) -> Option<int> {
    if '0' <= c <= '9' {
        Some(c as int - '0' as int)
    } else if 'a' <= c <= 'f' {
        Some(c as int - 'a' as int + 10)
    } else if 'A' <= c <= 'F' {
        Some(c as int - 'A' as int + 10)
    } else {
        None
    }
}

/// The character that four hexadecimal digits name; none where they are no digits, or name
/// half of a surrogate pair.
pub open spec fn unicode_escape(d: Seq<char>) -> Option<char> {
    match (hex_value(d[0]), hex_value(d[1]), hex_value(d[2]), hex_value(d[3])) {
        (Some(w), Some(x), Some(y), Some(z)) => {
            let code = ((w * 16 + x) * 16 + y) * 16 + z;
            if 0xd800 <= code <= 0xdfff {
                None
            } else {
                Some(code as char)
            }
        },
        _ => None,
    }
}

/// A value with one more character in front, where there is a value.
pub open spec fn in_front(c: char, rest: Option<Seq<char>>) -> Option<Seq<char>> {
    match rest {
        Some(value) => Some(seq![c] + value),
        None => None,
    }
}

/// What a JavaScript string literal stands for, from behind its opening double quote up to its
/// closing one. There is no value where a line ends inside the literal, where it is not closed,
/// or where a backslash is followed by anything but a backslash, a double quote, `n`, `r`, or
/// `u` with four hexadecimal digits.
pub open spec fn literal_value(s: Seq<char>) -> Option<Seq<char>>
    decreases s.len(),
{
    if s.len() == 0 || ends_line(s[0]) {
        None
    } else if s[0] == '"' {
        Some(Seq::empty())
    } else if s[0] != '\\' {
        in_front(s[0], literal_value(s.skip(1)))
    } else if s.len() < 2 {
        None
    } else if s[1] == '\\' || s[1] == '"' {
        in_front(s[1], literal_value(s.skip(2)))
    } else if s[1] == 'n' {
        in_front('\n', literal_value(s.skip(2)))
    } else if s[1] == 'r' {
        in_front('\r', literal_value(s.skip(2)))
    } else if s[1] == 'u' && s.len() >= 6 {
        match unicode_escape(s.subrange(2, 6)) {
            Some(c) => in_front(c, literal_value(s.skip(6))),
            None => None,
        }
    } else {
        None
    }
}

fn push_escaped(out: &mut String, c: char)
    ensures
        final(out)@ == old(out)@ + escaped_char(c),
{
    proof {
        reveal_strlit("\\n");
        reveal_strlit("\\r");
        reveal_strlit("\\u2028");
        reveal_strlit("\\u2029");
        reveal_strlit("\\u003c");
        reveal_strlit("\\u0000");
    }
    if c == '\\' || c == '"' {
        out.push('\\');
        out.push(c);
    } else if c == '\n' {
        out.append("\\n");
    } else if c == '\r' {
        out.append("\\r");
    } else if c == '\u{2028}' {
        out.append("\\u2028");
    } else if c == '\u{2029}' {
        out.append("\\u2029");
    } else if c == '<' {
        out.append("\\u003c");
    } else if c == '\0' {
        out.append("\\u0000");
    } else {
        out.push(c);
    }
    assert(out@ =~= old(out)@ + escaped_char(c));
}

/// Escapes a text for a double-quoted literal of a script.
pub fn escape_literal(s: &String) -> (res: String)
    ensures
        res@ == escaped(s@),
{
    let mut res: String = String::new();
    let ghost all = s@;
    assert(all.take(0) =~= Seq::<char>::empty());
    for c in it: s.as_str().chars()
        invariant
            it.seq() == all,
            res@ == escaped(all.take(it.index() as int)),
    {
        proof {
            let i = it.index() as int;
            assert(all.take(i + 1).drop_last() =~= all.take(i));
            assert(all.take(i + 1).last() == c);
        }
        push_escaped(&mut res, c);
    }
    assert(all.take(all.len() as int) =~= all);
    res
}

/// A page with a text embedded as a literal between two parts of the page.
pub fn embed_literal(before: &str, s: &String, behind: &str) -> (page: String)
    ensures
        page@ == before@ + seq!['"'] + escaped(s@) + seq!['"'] + behind@,
{
    let mut page: String = before.to_string();
    page.push('"');
    page.append(escape_literal(s).as_str());
    page.push('"');
    page.append(behind);
    assert(page@ =~= before@ + seq!['"'] + escaped(s@) + seq!['"'] + behind@);
    page
}

/// An escaped character in front of a literal is that character in front of its value.
proof fn lemma_escaped_char(c: char, tail: Seq<char>)
    ensures
        literal_value(escaped_char(c) + tail) == in_front(c, literal_value(tail)),
{
    let s = escaped_char(c) + tail;
    let n = escaped_char(c).len() as int;
    assert(s.skip(n) =~= tail);
    if n == 6 {
        let d = s.subrange(2, 6);
        assert(d[0] == s[2] && d[1] == s[3] && d[2] == s[4] && d[3] == s[5]);
        assert(unicode_escape(d) == Some(c));
    }
}

proof fn lemma_literal_prefix(s: Seq<char>, tail: Seq<char>, value: Seq<char>)
    requires
        literal_value(tail) == Some(value),
    ensures
        literal_value(escaped(s) + tail) == Some(s + value),
    decreases s.len(),
{
    if s.len() == 0 {
        assert(escaped(s) + tail =~= tail);
        assert(s + value =~= value);
    } else {
        let rest = s.drop_last();
        let c = s.last();
        let end = escaped_char(c) + tail;
        lemma_escaped_char(c, tail);
        assert(escaped(s) + tail =~= escaped(rest) + end);
        lemma_literal_prefix(rest, end, seq![c] + value);
        assert(rest + (seq![c] + value) =~= s + value);
    }
}

/// No character of an escaped text ends a line or begins markup.
proof fn lemma_escaped_is_plain(s: Seq<char>, i: int)
    requires
        0 <= i < escaped(s).len(),
    ensures
        !ends_line(escaped(s)[i]),
        escaped(s)[i] != '<',
        escaped(s)[i] != '\0',
    decreases s.len(),
{
    let rest = escaped(s.drop_last());
    if i < rest.len() {
        lemma_escaped_is_plain(s.drop_last(), i);
        assert(escaped(s)[i] == rest[i]);
    } else {
        assert(escaped(s)[i] == escaped_char(s.last())[i - rest.len()]);
    }
}

/// An escaped text in double quotes is a well-formed literal that stands for the text itself,
/// whatever it holds and whatever follows the closing quote, and nothing in it ends a line or
/// begins markup.
pub proof fn law_escaped_text_is_read_back(s: Seq<char>, behind: Seq<char>)
    ensures
        literal_value(escaped(s) + seq!['"'] + behind) == Some(s),
        forall|i: int|
            0 <= i < escaped(s).len() ==> {
                &&& !ends_line(#[trigger] escaped(s)[i])
                &&& escaped(s)[i] != '<'
                &&& escaped(s)[i] != '\0'
            },
{
    let tail = seq!['"'] + behind;
    lemma_literal_prefix(s, tail, Seq::empty());
    assert(escaped(s) + seq!['"'] + behind =~= escaped(s) + tail);
    assert(s + Seq::<char>::empty() =~= s);
    assert forall|i: int| 0 <= i < escaped(s).len() implies !ends_line(#[trigger] escaped(s)[i])
        && escaped(s)[i] != '<' && escaped(s)[i] != '\0' by {
        lemma_escaped_is_plain(s, i);
    }
}

} // verus!
