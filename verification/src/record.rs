//! Operation records: the atomic unit of a session log.
//!
//! A log file holds one record per line, in the shape
//! `<METHOD> <ENDPOINT> [<PAYLOAD>]`: the method and endpoint are the first
//! two space-separated fields, and the payload, when present, is the rest of
//! the line taken verbatim.

use vstd::prelude::*;
use vstd::string::*;

verus! {

/// The four operation kinds a session log may record.
#[derive(Clone, Copy, PartialEq, Eq, Structural, Debug)]
pub enum Method {
    Get,
    Post,
    Put,
    Delete,
}

/// Mathematical picture of one operation record.
#[verifier::ext_equal]
pub ghost struct OpModel {
    pub method: Method,
    pub endpoint: Seq<char>,
    pub payload: Option<Seq<char>>,
}

/// One parsed operation record.
pub struct Op {
    pub method: Method,
    pub endpoint: String,
    pub payload: Option<String>,
}

impl View for Op {
    type V = OpModel;

    open spec fn view(&self) -> OpModel {
        OpModel {
            method: self.method,
            endpoint: self.endpoint@,
            payload: match self.payload {
                Some(p) => Some(p@),
                None => None,
            },
        }
    }
}

impl Clone for Op {
    fn clone(&self) -> (r: Self)
        ensures
            r@ == self@,
    {
        Op {
            method: self.method,
            endpoint: self.endpoint.clone(),
            payload: match &self.payload {
                Some(p) => Some(p.clone()),
                None => None,
            },
        }
    }
}

/// Index of the first occurrence of `sep` in `s` at or after `from`;
/// `s.len()` when there is none.
pub open spec fn first_at(s: Seq<char>, sep: char, from: int) -> int
    decreases s.len() - from,
{
    if from < 0 || from >= s.len() {
        s.len() as int
    } else if s[from] == sep {
        from
    } else {
        first_at(s, sep, from + 1)
    }
}

pub proof fn lemma_first_at(s: Seq<char>, sep: char, from: int)
    requires
        0 <= from <= s.len(),
    ensures
        from <= first_at(s, sep, from) <= s.len(),
        first_at(s, sep, from) < s.len() ==> s[first_at(s, sep, from)] == sep,
        forall|j: int| from <= j < first_at(s, sep, from) ==> s[j] != sep,
    decreases s.len() - from,
{
    if from < s.len() && s[from] != sep {
        lemma_first_at(s, sep, from + 1);
    }
}

pub proof fn lemma_first_at_is(s: Seq<char>, sep: char, from: int, k: int)
    requires
        0 <= from <= k <= s.len(),
        forall|j: int| from <= j < k ==> s[j] != sep,
        k == s.len() || s[k] == sep,
    ensures
        first_at(s, sep, from) == k,
    decreases k - from,
{
    if from < k {
        lemma_first_at_is(s, sep, from + 1, k);
    }
}

/// First occurrence of `sep` in `s` at or after `from`, as executable code.
pub fn find_char(s: &str, sep: char, from: usize) -> (r: usize)
    requires
        from <= s@.len(),
    ensures
        r as int == first_at(s@, sep, from as int),
        from <= r <= s@.len(),
{
    proof {
        lemma_first_at(s@, sep, from as int);
    }
    let n = s.unicode_len();
    let mut i = from;
    while i < n
        invariant
            from <= i <= n,
            n == s@.len(),
            first_at(s@, sep, from as int) == first_at(s@, sep, i as int),
        decreases n - i,
    {
        if s.get_char(i) == sep {
            return i;
        }
        i = i + 1;
    }
    n
}

/// What parsing one record yields: method text, endpoint text, and the
/// verbatim remainder of the line when a second separator is present.
pub open spec fn parse_line_model(s: Seq<char>) -> Option<(Seq<char>, Seq<char>, Option<Seq<char>>)> {
    let i = first_at(s, ' ', 0);
    if i >= s.len() {
        None
    } else {
        let j = first_at(s, ' ', i + 1);
        if j >= s.len() {
            Some((s.subrange(0, i), s.subrange(i + 1, s.len() as int), None))
        } else {
            Some((s.subrange(0, i), s.subrange(i + 1, j), Some(s.subrange(j + 1, s.len() as int))))
        }
    }
}

/// Splits one log line into `(method, endpoint, payload)`: the first two
/// space-separated fields, then the rest of the line verbatim.  `None` when
/// fewer than two fields are present.
pub fn parse_line(line: &str) -> (r: Option<(String, String, Option<String>)>)
    ensures
        match r {
            None => parse_line_model(line@) is None,
            Some(t) => {
                &&& parse_line_model(line@) matches Some(m)
                &&& t.0@ == m.0
                &&& t.1@ == m.1
                &&& match t.2 {
                    None => m.2 is None,
                    Some(p) => m.2 == Some(p@),
                }
            },
        },
{
    let n = line.unicode_len();
    let i = find_char(line, ' ', 0);
    if i == n {
        return None;
    }
    let method = line.substring_char(0, i).to_owned();
    let j = find_char(line, ' ', i + 1);
    if j == n {
        let endpoint = line.substring_char(i + 1, n).to_owned();
        Some((method, endpoint, None))
    } else {
        let endpoint = line.substring_char(i + 1, j).to_owned();
        let payload = line.substring_char(j + 1, n).to_owned();
        Some((method, endpoint, Some(payload)))
    }
}

/// Which `Method` a method field denotes, if any.
pub open spec fn method_model(s: Seq<char>) -> Option<Method> {
    if s.len() == 3 && s[0] == 'G' && s[1] == 'E' && s[2] == 'T' {
        Some(Method::Get)
    } else if s.len() == 4 && s[0] == 'P' && s[1] == 'O' && s[2] == 'S' && s[3] == 'T' {
        Some(Method::Post)
    } else if s.len() == 3 && s[0] == 'P' && s[1] == 'U' && s[2] == 'T' {
        Some(Method::Put)
    } else if s.len() == 6 && s[0] == 'D' && s[1] == 'E' && s[2] == 'L' && s[3] == 'E' && s[4]
        == 'T' && s[5] == 'E' {
        Some(Method::Delete)
    } else {
        None
    }
}

/// The textual form of a method.
pub open spec fn method_chars(m: Method) -> Seq<char> {
    match m {
        Method::Get => seq!['G', 'E', 'T'],
        Method::Post => seq!['P', 'O', 'S', 'T'],
        Method::Put => seq!['P', 'U', 'T'],
        Method::Delete => seq!['D', 'E', 'L', 'E', 'T', 'E'],
    }
}

pub proof fn lemma_method_chars_roundtrip(m: Method)
    ensures
        method_model(method_chars(m)) == Some(m),
        forall|j: int| 0 <= j < method_chars(m).len() ==> method_chars(m)[j] != ' ',
{
}

/// Classifies a method field.
pub fn parse_method(s: &str) -> (r: Option<Method>)
    ensures
        r == method_model(s@),
{
    let n = s.unicode_len();
    if n == 3 && s.get_char(0) == 'G' && s.get_char(1) == 'E' && s.get_char(2) == 'T' {
        Some(Method::Get)
    } else if n == 4 && s.get_char(0) == 'P' && s.get_char(1) == 'O' && s.get_char(2) == 'S'
        && s.get_char(3) == 'T' {
        Some(Method::Post)
    } else if n == 3 && s.get_char(0) == 'P' && s.get_char(1) == 'U' && s.get_char(2) == 'T' {
        Some(Method::Put)
    } else if n == 6 && s.get_char(0) == 'D' && s.get_char(1) == 'E' && s.get_char(2) == 'L'
        && s.get_char(3) == 'E' && s.get_char(4) == 'T' && s.get_char(5) == 'E' {
        Some(Method::Delete)
    } else {
        None
    }
}

/// No space occurs in `s`.
pub open spec fn no_space(s: Seq<char>) -> bool {
    forall|i: int| 0 <= i < s.len() ==> s[i] != ' '
}

/// A well-formed operation: its endpoint is a single field, so rendering it
/// and parsing the result gives the operation back.
pub open spec fn wf_op(op: OpModel) -> bool {
    no_space(op.endpoint)
}

/// The textual line that stands for an operation.
pub open spec fn render_model(op: OpModel) -> Seq<char> {
    method_chars(op.method) + seq![' '] + op.endpoint + (match op.payload {
        Some(p) => seq![' '] + p,
        None => Seq::<char>::empty(),
    })
}

/// The method and endpoint fields of a parsed line hold no space.
pub proof fn lemma_parse_line_fields(s: Seq<char>)
    ensures
        parse_line_model(s) matches Some(t) ==> no_space(t.0) && no_space(t.1),
{
    lemma_first_at(s, ' ', 0);
    let i = first_at(s, ' ', 0);
    if i < s.len() {
        lemma_first_at(s, ' ', i + 1);
    }
}

/// Rendering a well-formed operation and parsing the line gives the
/// operation's own fields back.
pub proof fn lemma_parse_render(op: OpModel)
    requires
        wf_op(op),
    ensures
        parse_line_model(render_model(op)) == Some(
            (method_chars(op.method), op.endpoint, op.payload),
        ),
{
    let s = render_model(op);
    let m = method_chars(op.method);
    let k = m.len() as int;
    lemma_method_chars_roundtrip(op.method);
    assert forall|j: int| 0 <= j < k implies s[j] != ' ' by {
        assert(s[j] == m[j]);
    }
    assert(s[k] == ' ');
    lemma_first_at_is(s, ' ', 0, k);
    assert(s.subrange(0, k) =~= m);
    match op.payload {
        None => {
            assert forall|j: int| k + 1 <= j < s.len() implies s[j] != ' ' by {
                assert(s[j] == op.endpoint[j - k - 1]);
            }
            lemma_first_at_is(s, ' ', k + 1, s.len() as int);
            assert(s.subrange(k + 1, s.len() as int) =~= op.endpoint);
        },
        Some(p) => {
            let e = k + 1 + op.endpoint.len() as int;
            assert forall|j: int| k + 1 <= j < e implies s[j] != ' ' by {
                assert(s[j] == op.endpoint[j - k - 1]);
            }
            assert(s[e] == ' ');
            lemma_first_at_is(s, ' ', k + 1, e);
            assert(s.subrange(k + 1, e) =~= op.endpoint);
            assert(s.subrange(e + 1, s.len() as int) =~= p);
        },
    }
}

/// The textual name of a method.
pub fn method_text(m: Method) -> (r: &'static str)
    ensures
        r@ == method_chars(m),
{
    match m {
        Method::Get => {
            proof {
                reveal_strlit("GET");
            }
            let r = "GET";
            assert(r@ =~= method_chars(m));
            r
        },
        Method::Post => {
            proof {
                reveal_strlit("POST");
            }
            let r = "POST";
            assert(r@ =~= method_chars(m));
            r
        },
        Method::Put => {
            proof {
                reveal_strlit("PUT");
            }
            let r = "PUT";
            assert(r@ =~= method_chars(m));
            r
        },
        Method::Delete => {
            proof {
                reveal_strlit("DELETE");
            }
            let r = "DELETE";
            assert(r@ =~= method_chars(m));
            r
        },
    }
}

/// Writes an operation back out as one log line.
pub fn render(op: &Op) -> (r: String)
    ensures
        r@ == render_model(op@),
{
    proof {
        reveal_strlit(" ");
    }
    let mut s = method_text(op.method).to_owned();
    s.append(" ");
    s.append(op.endpoint.as_str());
    match &op.payload {
        Some(p) => {
            s.append(" ");
            s.append(p.as_str());
        },
        None => {},
    }
    proof {
        assert(" "@ =~= seq![' ']);
        assert(s@ =~= render_model(op@));
    }
    s
}

} // verus!
