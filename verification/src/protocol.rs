//! The text protocol: one request per line, a keyword and its arguments
//! separated by ASCII whitespace, with exactly the arity the keyword demands.

use vstd::prelude::*;

verus! {

/// A command a client can send.
pub enum Command {
    SetKv { key: String, value: String },
    Get { key: String },
    Delete { key: String },
    Compact,
}

/// The mathematical shadow of a command.
pub enum CmdModel {
    SetKv { key: Seq<char>, value: Seq<char> },
    Get { key: Seq<char> },
    Delete { key: Seq<char> },
    Compact,
}

impl View for Command {
    type V = CmdModel;

    open spec fn view(&self) -> CmdModel {
        match self {
            Command::SetKv { key, value } => CmdModel::SetKv { key: key@, value: value@ },
            Command::Get { key } => CmdModel::Get { key: key@ },
            Command::Delete { key } => CmdModel::Delete { key: key@ },
            Command::Compact => CmdModel::Compact,
        }
    }
}

/// A response the server sends back: success, a value or a miss, or an error
/// message.
pub enum Response {
    Okay,
    Value(Option<String>),
    Error(String),
}

/// ASCII whitespace, the token separator.
pub open spec fn is_ws(c: char) -> bool {
    c == ' ' || c == '\t' || c == '\n' || c == '\r' || c == '\x0c'
}

/// Length of the token starting at the head of `s`.
pub open spec fn token_end(s: Seq<char>) -> int
    decreases s.len(),
{
    if s.len() == 0 {
        0
    } else if is_ws(s[0]) {
        0
    } else {
        1 + token_end(s.drop_first())
    }
}

pub proof fn lemma_token_end(s: Seq<char>)
    ensures
        0 <= token_end(s) <= s.len(),
        s.len() > 0 && !is_ws(s[0]) ==> token_end(s) >= 1,
        forall|j: int| 0 <= j < token_end(s) ==> !is_ws(s[j]),
        token_end(s) < s.len() ==> is_ws(s[token_end(s)]),
    decreases s.len(),
{
    if s.len() > 0 && !is_ws(s[0]) {
        lemma_token_end(s.drop_first());
        let te = token_end(s);
        assert(te == 1 + token_end(s.drop_first()));
        if te < s.len() {
            assert(s[te] == s.drop_first()[te - 1]);
        }
        assert forall|j: int| 0 <= j < te implies !is_ws(s[j]) by {
            if j > 0 {
                assert(s[j] == s.drop_first()[j - 1]);
            }
        }
    }
}

/// Where the token boundary is known, `token_end` returns it.
pub proof fn lemma_token_end_is(s: Seq<char>, i: int)
    requires
        0 <= i <= s.len(),
        forall|j: int| 0 <= j < i ==> !is_ws(s[j]),
        i < s.len() ==> is_ws(s[i]),
    ensures
        token_end(s) == i,
    decreases i,
{
    if s.len() == 0 {
    } else if i == 0 {
        if !is_ws(s[0]) {
            lemma_token_end(s.drop_first());
        }
    } else {
        assert(!is_ws(s[0]));
        assert(forall|j: int| 0 <= j < s.drop_first().len() ==> s.drop_first()[j] == s[j + 1]);
        lemma_token_end_is(s.drop_first(), i - 1);
    }
}

/// The whitespace-separated tokens of a request line.
pub open spec fn tokens(s: Seq<char>) -> Seq<Seq<char>>
    decreases s.len(),
{
    if s.len() == 0 {
        Seq::empty()
    } else if is_ws(s[0]) {
        tokens(s.drop_first())
    } else if 0 < token_end(s) <= s.len() {
        seq![s.take(token_end(s))] + tokens(s.skip(token_end(s)))
    } else {
        Seq::empty()
    }
}

pub open spec fn str_views(ts: Seq<String>) -> Seq<Seq<char>> {
    ts.map_values(|t: String| t@)
}

/// The keywords, as character sequences.
pub open spec fn kw_set() -> Seq<char> {
    seq!['S', 'E', 'T']
}

pub open spec fn kw_get() -> Seq<char> {
    seq!['G', 'E', 'T']
}

pub open spec fn kw_delete() -> Seq<char> {
    seq!['D', 'E', 'L', 'E', 'T', 'E']
}

pub open spec fn kw_compact() -> Seq<char> {
    seq!['C', 'O', 'M', 'P', 'A', 'C', 'T']
}

/// What a request line parses to; `None` is the invalid-format error.
pub open spec fn spec_parse_command(s: Seq<char>) -> Option<CmdModel> {
    let t = tokens(s);
    if t.len() == 3 && t[0] == kw_set() {
        Some(CmdModel::SetKv { key: t[1], value: t[2] })
    } else if t.len() == 2 && t[0] == kw_get() {
        Some(CmdModel::Get { key: t[1] })
    } else if t.len() == 2 && t[0] == kw_delete() {
        Some(CmdModel::Delete { key: t[1] })
    } else if t.len() == 1 && t[0] == kw_compact() {
        Some(CmdModel::Compact)
    } else {
        None
    }
}

fn is_ws_char(c: char) -> (r: bool)
    ensures
        r == is_ws(c),
{
    c == ' ' || c == '\t' || c == '\n' || c == '\r' || c == '\x0c'
}

/// Whether a string equals a keyword, character by character.
fn str_eq_chars(a: &str, kw: &str) -> (r: bool)
    ensures
        r == (a@ == kw@),
{
    let n = a.unicode_len();
    let m = kw.unicode_len();
    if n != m {
        return false;
    }
    let mut i: usize = 0;
    while i < n
        invariant
            i <= n,
            n == a@.len(),
            n == kw@.len(),
            forall|j: int| 0 <= j < i ==> a@[j] == kw@[j],
        decreases n - i,
    {
        if a.get_char(i) != kw.get_char(i) {
            return false;
        }
        i += 1;
    }
    proof {
        assert(a@ =~= kw@);
    }
    true
}

/// Split a request line into its whitespace-separated tokens.
fn tokenize(s: &str) -> (r: Vec<String>)
    ensures
        str_views(r@) == tokens(s@),
{
    let n = s.unicode_len();
    let mut toks: Vec<String> = Vec::new();
    let mut i: usize = 0;
    proof {
        assert(s@.skip(0) =~= s@);
        assert(str_views(toks@) =~= Seq::<Seq<char>>::empty());
        assert(str_views(toks@) + tokens(s@) =~= tokens(s@));
    }
    while i < n
        invariant
            i <= n,
            n == s@.len(),
            str_views(toks@) + tokens(s@.skip(i as int)) == tokens(s@),
        decreases n - i,
    {
        let c = s.get_char(i);
        if is_ws_char(c) {
            proof {
                assert(s@.skip(i as int)[0] == s@[i as int]);
                assert(s@.skip(i as int).drop_first() =~= s@.skip(i as int + 1));
            }
            i += 1;
        } else {
            let mut j = i + 1;
            while j < n && !is_ws_char(s.get_char(j))
                invariant
                    i < j <= n,
                    n == s@.len(),
                    forall|m: int| i <= m < j ==> !is_ws(s@[m]),
                decreases n - j,
            {
                j += 1;
            }
            let tok = s.substring_char(i, j).to_owned();
            let ghost pre = toks@;
            toks.push(tok);
            proof {
                let tail = s@.skip(i as int);
                assert(forall|m: int| 0 <= m < tail.len() ==> tail[m] == s@[i + m]);
                lemma_token_end_is(tail, j - i);
                assert(tokens(tail) == seq![tail.take(j - i)] + tokens(tail.skip(j - i)));
                assert(tail.take(j - i) =~= s@.subrange(i as int, j as int));
                assert(tail.skip(j - i) =~= s@.skip(j as int));
                assert(str_views(toks@) =~= str_views(pre).push(s@.subrange(i as int, j as int)));
                assert(str_views(toks@) + tokens(s@.skip(j as int)) =~= tokens(s@));
            }
            i = j;
        }
    }
    proof {
        assert(s@.skip(n as int) =~= Seq::<char>::empty());
        assert(tokens(Seq::<char>::empty()) =~= Seq::<Seq<char>>::empty());
        assert(str_views(toks@) =~= tokens(s@));
    }
    toks
}

impl Command {
    /// Parse one request line. The arity is exact: three tokens for a set, two
    /// for a get or a delete, one for a compaction; anything else is the
    /// invalid-format error.
    pub fn from_str(s: &str) -> (r: Result<Command, &'static str>)
        ensures
            match r {
                Ok(c) => spec_parse_command(s@) == Some(c@),
                Err(m) => spec_parse_command(s@) == None::<CmdModel> && m@
                    == "Invalid command format"@,
            },
    {
        let mut toks = tokenize(s);
        proof {
            reveal_strlit("SET");
            reveal_strlit("GET");
            reveal_strlit("DELETE");
            reveal_strlit("COMPACT");
            assert("SET"@ =~= kw_set());
            assert("GET"@ =~= kw_get());
            assert("DELETE"@ =~= kw_delete());
            assert("COMPACT"@ =~= kw_compact());
        }
        if toks.len() == 3 && str_eq_chars(toks[0].as_str(), "SET") {
            let value = toks.remove(2);
            let key = toks.remove(1);
            proof {
                assert(tokens(s@)[1] == key@);
                assert(tokens(s@)[2] == value@);
            }
            Ok(Command::SetKv { key, value })
        } else if toks.len() == 2 && str_eq_chars(toks[0].as_str(), "GET") {
            let key = toks.remove(1);
            proof {
                assert(tokens(s@)[1] == key@);
            }
            Ok(Command::Get { key })
        } else if toks.len() == 2 && str_eq_chars(toks[0].as_str(), "DELETE") {
            let key = toks.remove(1);
            proof {
                assert(tokens(s@)[1] == key@);
            }
            Ok(Command::Delete { key })
        } else if toks.len() == 1 && str_eq_chars(toks[0].as_str(), "COMPACT") {
            Ok(Command::Compact)
        } else {
            proof {
                assert(forall|i: int|
                    0 <= i < toks@.len() ==> tokens(s@)[i] == #[trigger] toks@[i]@);
            }
            Err("Invalid command format")
        }
    }
}

} // verus!
