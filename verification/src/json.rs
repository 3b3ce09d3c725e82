//! A JSON document model holding what the catalogue logic reads from API
//! responses (strings, arrays, objects), with key lookup and RFC 6901 JSON
//! pointers.
use vstd::prelude::*;
use crate::text::{
    chars_equal, chars_of, lemma_split_on_nonempty, parse_u64, parse_unsigned, replace_all, replace_chars, split_chars,
    split_on, views,
};

verus! {

/// A JSON value. Numbers carry no payload: nothing reads them.
pub enum Json {
    Null,
    Bool(bool),
    Number,
    Str(String),
    Array(Vec<Json>),
    /// Members in document order; keys are distinct.
    Object(Vec<(String, Json)>),
}

/// The value of the first member named `key`.
pub open spec fn member(es: Seq<(String, Json)>, key: Seq<char>) -> Option<Json>
    decreases es.len(),
{
    if es.len() == 0 {
        None
    } else if es[0].0@ == key {
        Some(es[0].1)
    } else {
        member(es.skip(1), key)
    }
}

/// `Value::get` with a string key: the member of an object, `None` otherwise.
pub open spec fn get(v: Json, key: Seq<char>) -> Option<Json> {
    match v {
        Json::Object(es) => member(es@, key),
        _ => None,
    }
}

/// `Value::as_str`.
pub open spec fn str_of(v: Option<Json>) -> Option<Seq<char>> {
    match v {
        Some(Json::Str(s)) => Some(s@),
        _ => None,
    }
}

/// `Value::as_array`.
pub open spec fn array_of(v: Option<Json>) -> Option<Seq<Json>> {
    match v {
        Some(Json::Array(items)) => Some(items@),
        _ => None,
    }
}

/// An array index token: no leading `+`, no leading zero unless the token is
/// `0`, and a decimal numeral that fits in `usize`.
pub open spec fn index_token(tok: Seq<char>) -> Option<nat> {
    if tok.len() > 0 && (tok[0] == '+' || (tok[0] == '0' && tok.len() != 1)) {
        None
    } else {
        parse_unsigned(tok, usize::MAX as nat)
    }
}

/// One pointer step: an object member, or an array element by index.
pub open spec fn step(v: Json, tok: Seq<char>) -> Option<Json> {
    match v {
        Json::Object(es) => member(es@, tok),
        Json::Array(items) => match index_token(tok) {
            Some(n) => if n < items@.len() {
                Some(items@[n as int])
            } else {
                None
            },
            None => None,
        },
        _ => None,
    }
}

/// Follows the tokens one after the other.
pub open spec fn follow(v: Json, toks: Seq<Seq<char>>) -> Option<Json>
    decreases toks.len(),
{
    if toks.len() == 0 {
        Some(v)
    } else {
        match step(v, toks[0]) {
            Some(w) => follow(w, toks.skip(1)),
            None => None,
        }
    }
}

/// A pointer token with its escapes undone: `~1` is `/`, `~0` is `~`.
pub open spec fn unescape(tok: Seq<char>) -> Seq<char> {
    replace_all(replace_all(tok, "~1"@, "/"@), "~0"@, "~"@)
}

/// The tokens of a pointer that starts with `/`.
pub open spec fn pointer_tokens(p: Seq<char>) -> Seq<Seq<char>> {
    split_on(p, '/').skip(1).map_values(|t: Seq<char>| unescape(t))
}

/// `Value::pointer`: the empty pointer is the value itself, a pointer not
/// starting with `/` addresses nothing, and otherwise each `/`-separated
/// token selects an object member or an array element.
pub open spec fn pointer(v: Json, p: Seq<char>) -> Option<Json> {
    if p.len() == 0 {
        Some(v)
    } else if p[0] != '/' {
        None
    } else {
        follow(v, pointer_tokens(p))
    }
}

/// A reference result and a spec result agree.
pub open spec fn agrees(r: Option<&Json>, s: Option<Json>) -> bool {
    match r {
        Some(x) => s == Some(*x),
        None => s is None,
    }
}

impl Json {
    /// The member named by `key` (characters), if this is an object that has one.
    fn member_chars(&self, key: &Vec<char>) -> (r: Option<&Json>)
        ensures
            agrees(r, get(*self, key@)),
    {
        match self {
            Json::Object(es) => {
                let mut i: usize = 0;
                assert(es@.skip(0) =~= es@);
                while i < es.len()
                    invariant
                        i <= es.len(),
                        get(*self, key@) == member(es@, key@),
                        member(es@, key@) == member(es@.skip(i as int), key@),
                    decreases es.len() - i,
                {
                    let ghost rest = es@.skip(i as int);
                    assert(rest[0] == es@[i as int]);
                    assert(rest.skip(1) =~= es@.skip(i + 1));
                    let name = chars_of(es[i].0.as_str());
                    assert(name@ == es@[i as int].0@);
                    if chars_equal(&name, key) {
                        assert(member(rest, key@) == Some(es@[i as int].1));
                        return Some(&es[i].1);
                    }
                    i = i + 1;
                }
                None
            },
            _ => None,
        }
    }

    /// `Value::get` with a string key.
    pub fn get(&self, key: &str) -> (r: Option<&Json>)
        ensures
            agrees(r, get(*self, key@)),
    {
        let k = chars_of(key);
        self.member_chars(&k)
    }

    /// `Value::as_str`.
    pub fn as_str(&self) -> (r: Option<&str>)
        ensures
            match r {
                Some(s) => str_of(Some(*self)) == Some(s@),
                None => str_of(Some(*self)) is None,
            },
    {
        match self {
            Json::Str(s) => Some(s.as_str()),
            _ => None,
        }
    }

    /// `Value::as_array`.
    pub fn as_array(&self) -> (r: Option<&Vec<Json>>)
        ensures
            match r {
                Some(a) => array_of(Some(*self)) == Some(a@),
                None => array_of(Some(*self)) is None,
            },
    {
        match self {
            Json::Array(items) => Some(items),
            _ => None,
        }
    }

    /// One pointer step.
    fn step(&self, tok: &Vec<char>) -> (r: Option<&Json>)
        ensures
            agrees(r, step(*self, tok@)),
    {
        match self {
            Json::Object(_) => self.member_chars(tok),
            Json::Array(items) => {
                if tok.len() > 0 && (tok[0] == '+' || (tok[0] == '0' && tok.len() != 1)) {
                    return None;
                }
                assert(tok.len() > 0 ==> tok@[0] != '+');
                match parse_u64(tok) {
                    Some(n) => {
                        if n < items.len() as u64 {
                            let idx = n as usize;
                            Some(&items[idx])
                        } else {
                            None
                        }
                    },
                    None => None,
                }
            },
            _ => None,
        }
    }

    /// `Value::pointer`: looks up a value by an RFC 6901 JSON pointer.
    pub fn pointer(&self, p: &str) -> (r: Option<&Json>)
        ensures
            agrees(r, pointer(*self, p@)),
    {
        let pc = chars_of(p);
        if pc.len() == 0 {
            return Some(self);
        }
        if pc[0] != '/' {
            return None;
        }
        let pieces = split_chars(&pc, '/');
        let ghost toks = pointer_tokens(p@);
        let tilde1: Vec<char> = vec!['~', '1'];
        let slash: Vec<char> = vec!['/'];
        let tilde0: Vec<char> = vec!['~', '0'];
        let tilde: Vec<char> = vec!['~'];
        proof {
            reveal_strlit("~1");
            reveal_strlit("/");
            reveal_strlit("~0");
            reveal_strlit("~");
            assert(tilde1@ =~= "~1"@);
            assert(slash@ =~= "/"@);
            assert(tilde0@ =~= "~0"@);
            assert(tilde@ =~= "~"@);
        }
        let mut cur: &Json = self;
        let mut i: usize = 1;
        proof {
            lemma_split_on_nonempty(p@, '/');
        }
        assert(toks.len() == pieces.len() - 1);
        assert(toks.skip(0) =~= toks);
        while i < pieces.len()
            invariant
                1 <= i <= pieces.len(),
                views(pieces@) == split_on(p@, '/'),
                toks == pointer_tokens(p@),
                toks.len() == pieces.len() - 1,
                tilde1.len() == 2,
                tilde0.len() == 2,
                tilde1@ == "~1"@,
                slash@ == "/"@,
                tilde0@ == "~0"@,
                tilde@ == "~"@,
                follow(*self, toks) == follow(*cur, toks.skip(i - 1)),
            decreases pieces.len() - i,
        {
            let ghost rest = toks.skip(i - 1);
            let once = replace_chars(&pieces[i], &tilde1, &slash);
            let tok = replace_chars(&once, &tilde0, &tilde);
            assert(tok@ == rest[0]);
            assert(rest.skip(1) =~= toks.skip(i as int));
            match cur.step(&tok) {
                Some(next) => {
                    cur = next;
                },
                None => {
                    return None;
                },
            }
            i = i + 1;
        }
        assert(toks.skip(pieces.len() - 1) =~= Seq::<Seq<char>>::empty());
        Some(cur)
    }
}

} // verus!
