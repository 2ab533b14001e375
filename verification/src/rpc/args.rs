//! Named arguments of a call, read out of a JSON object.

use crate::json::{items_view, lemma_json_view, Json, JsonView};
use crate::text::{concat, owned};
use vstd::prelude::*;
use vstd::string::*;

verus! {

/// An outcome with its message as a mathematical value.
pub open spec fn said<T>(r: Result<T, String>) -> Result<T, Seq<char>> {
    match r {
        Ok(v) => Ok(v),
        Err(e) => Err(e@),
    }
}

/// What is said of an argument that is not there.
pub open spec fn missing(key: Seq<char>) -> Seq<char> {
    "missing argument '"@ + key + "'"@
}

/// What is said of an argument of the wrong kind.
pub open spec fn unfit(key: Seq<char>, rule: Seq<char>) -> Seq<char> {
    "argument '"@ + key + rule
}

/// A number that fits in sixteen bits.
pub open spec fn fit_u16(n: Option<u64>) -> Option<u16> {
    match n {
        Some(v) => if v <= u16::MAX {
            Some(v as u16)
        } else {
            None
        },
        None => None,
    }
}

/// A number that fits in thirty-two bits.
pub open spec fn fit_u32(n: Option<u64>) -> Option<u32> {
    match n {
        Some(v) => if v <= u32::MAX {
            Some(v as u32)
        } else {
            None
        },
        None => None,
    }
}

/// A signed number that fits in thirty-two bits.
pub open spec fn fit_i32(n: Option<i64>) -> Option<i32> {
    match n {
        Some(v) => if i32::MIN <= v <= i32::MAX {
            Some(v as i32)
        } else {
            None
        },
        None => None,
    }
}

/// The value that an argument must have, or what is said of it.
pub open spec fn demanded<T>(
    args: JsonView,
    key: Seq<char>,
    rule: Seq<char>,
    read: spec_fn(JsonView) -> Option<T>,
) -> Result<T, Seq<char>> {
    match args.get(key) {
        None => Err(missing(key)),
        Some(v) => match read(v) {
            Some(t) => Ok(t),
            None => Err(unfit(key, rule)),
        },
    }
}

/// The value that an argument may have: absent and null are the same.
pub open spec fn allowed<T>(
    args: JsonView,
    key: Seq<char>,
    rule: Seq<char>,
    read: spec_fn(JsonView) -> Option<T>,
) -> Result<Option<T>, Seq<char>> {
    match args.get(key) {
        None => Ok(None),
        Some(v) => if v == JsonView::Null {
            Ok(None)
        } else {
            match read(v) {
                Some(t) => Ok(Some(t)),
                None => Err(unfit(key, rule)),
            }
        },
    }
}

pub open spec fn text_arg(args: JsonView, key: Seq<char>) -> Result<Seq<char>, Seq<char>> {
    demanded(args, key, "' must be a string"@, |v: JsonView| v.as_str())
}

pub open spec fn opt_text_arg(args: JsonView, key: Seq<char>) -> Result<
    Option<Seq<char>>,
    Seq<char>,
> {
    allowed(args, key, "' must be a string"@, |v: JsonView| v.as_str())
}

pub open spec fn u16_arg(args: JsonView, key: Seq<char>) -> Result<u16, Seq<char>> {
    demanded(
        args,
        key,
        "' must be an integer in u16 range"@,
        |v: JsonView| fit_u16(v.as_u64()),
    )
}

pub open spec fn u32_arg(args: JsonView, key: Seq<char>) -> Result<u32, Seq<char>> {
    demanded(
        args,
        key,
        "' must be an integer in u32 range"@,
        |v: JsonView| fit_u32(v.as_u64()),
    )
}

pub open spec fn opt_u32_arg(args: JsonView, key: Seq<char>) -> Result<Option<u32>, Seq<char>> {
    allowed(
        args,
        key,
        "' must be an integer in u32 range"@,
        |v: JsonView| fit_u32(v.as_u64()),
    )
}

pub open spec fn u64_arg(args: JsonView, key: Seq<char>) -> Result<u64, Seq<char>> {
    demanded(args, key, "' must be an unsigned integer"@, |v: JsonView| v.as_u64())
}

pub open spec fn i32_arg(args: JsonView, key: Seq<char>) -> Result<i32, Seq<char>> {
    demanded(
        args,
        key,
        "' must be an integer in i32 range"@,
        |v: JsonView| fit_i32(v.as_i64()),
    )
}

pub open spec fn bool_arg(args: JsonView, key: Seq<char>) -> Result<bool, Seq<char>> {
    demanded(args, key, "' must be a boolean"@, |v: JsonView| v.as_bool())
}

/// The server and port of one entry of a list of proxies.
pub open spec fn proxy_entry(item: JsonView) -> Result<(Seq<char>, u16), Seq<char>> {
    match item.get("server"@) {
        Some(JsonView::Text(server)) => {
            let port = match item.get("port"@) {
                Some(v) => fit_u16(v.as_u64()),
                None => None,
            };
            match port {
                Some(port) => Ok((server, port)),
                None => Err("proxy '"@ + server + "' missing 'port' in u16 range"@),
            }
        },
        _ => Err("proxy entry missing string 'server'"@),
    }
}

/// The entries of a list of proxies, or what is said of the first that is none.
pub open spec fn proxy_entries(items: Seq<JsonView>) -> Result<Seq<(Seq<char>, u16)>, Seq<char>>
    decreases items.len(),
{
    if items.len() == 0 {
        Ok(Seq::empty())
    } else {
        match proxy_entry(items[0]) {
            Err(e) => Err(e),
            Ok(first) => match proxy_entries(items.skip(1)) {
                Err(e) => Err(e),
                Ok(rest) => Ok(seq![first] + rest),
            },
        }
    }
}

pub open spec fn proxies_arg(args: JsonView, key: Seq<char>) -> Result<
    Seq<(Seq<char>, u16)>,
    Seq<char>,
> {
    match args.get(key) {
        None => Err(missing(key)),
        Some(JsonView::Array(items)) => proxy_entries(items),
        Some(_) => Err(unfit(key, "' must be an array of objects"@)),
    }
}

/// Pairs of server and port as mathematical values.
pub open spec fn pairs_view(v: Seq<(String, u16)>) -> Seq<(Seq<char>, u16)> {
    Seq::new(v.len(), |i: int| (v[i].0@, v[i].1))
}

fn say_missing(key: &str) -> (r: String)
    ensures
        r@ == missing(key@),
{
    concat(&concat("missing argument '", key), "'")
}

fn say_unfit(key: &str, rule: &str) -> (r: String)
    ensures
        r@ == unfit(key@, rule@),
{
    concat(&concat("argument '", key), rule)
}

fn narrow_u16(n: Option<u64>) -> (r: Option<u16>)
    ensures
        r == fit_u16(n),
{
    match n {
        Some(v) => if v <= 0xffff {
            Some(v as u16)
        } else {
            None
        },
        None => None,
    }
}

fn narrow_u32(n: Option<u64>) -> (r: Option<u32>)
    ensures
        r == fit_u32(n),
{
    match n {
        Some(v) => if v <= 0xffff_ffff {
            Some(v as u32)
        } else {
            None
        },
        None => None,
    }
}

/// A view of a JSON object by argument name.
pub struct Args<'a>(pub &'a Json);

impl<'a> Args<'a> {
    /// The value of an argument.
    pub fn get(&self, key: &str) -> (r: Result<&'a Json, String>)
        ensures
            match self.0@.get(key@) {
                None => r is Err && r->Err_0@ == missing(key@),
                Some(v) => r is Ok && r->Ok_0@ == v,
            },
    {
        match self.0.get(key) {
            Some(v) => Ok(v),
            None => Err(say_missing(key)),
        }
    }

    /// A text.
    pub fn string(&self, key: &str) -> (r: Result<String, String>)
        ensures
            match text_arg(self.0@, key@) {
                Err(e) => r is Err && r->Err_0@ == e,
                Ok(s) => r is Ok && r->Ok_0@ == s,
            },
    {
        match self.get(key) {
            Err(e) => Err(e),
            Ok(v) => match v.as_str() {
                Some(s) => Ok(owned(s)),
                None => Err(say_unfit(key, "' must be a string")),
            },
        }
    }

    /// A text that may be left out.
    pub fn opt_string(&self, key: &str) -> (r: Result<Option<String>, String>)
        ensures
            match opt_text_arg(self.0@, key@) {
                Err(e) => r is Err && r->Err_0@ == e,
                Ok(None) => r is Ok && r->Ok_0 is None,
                Ok(Some(s)) => r is Ok && r->Ok_0 is Some && r->Ok_0->Some_0@ == s,
            },
    {
        match self.0.get(key) {
            None => Ok(None),
            Some(v) => if v.is_null() {
                Ok(None)
            } else {
                match v.as_str() {
                    Some(s) => Ok(Some(owned(s))),
                    None => Err(say_unfit(key, "' must be a string")),
                }
            },
        }
    }

    /// A number of sixteen bits.
    pub fn u16(&self, key: &str) -> (r: Result<u16, String>)
        ensures
            said(r) == u16_arg(self.0@, key@),
    {
        match self.get(key) {
            Err(e) => Err(e),
            Ok(v) => match narrow_u16(v.as_u64()) {
                Some(n) => Ok(n),
                None => Err(say_unfit(key, "' must be an integer in u16 range")),
            },
        }
    }

    /// A number of thirty-two bits.
    pub fn u32(&self, key: &str) -> (r: Result<u32, String>)
        ensures
            said(r) == u32_arg(self.0@, key@),
    {
        match self.get(key) {
            Err(e) => Err(e),
            Ok(v) => match narrow_u32(v.as_u64()) {
                Some(n) => Ok(n),
                None => Err(say_unfit(key, "' must be an integer in u32 range")),
            },
        }
    }

    /// A number of thirty-two bits that may be left out.
    pub fn opt_u32(&self, key: &str) -> (r: Result<Option<u32>, String>)
        ensures
            said(r) == opt_u32_arg(self.0@, key@),
    {
        match self.0.get(key) {
            None => Ok(None),
            Some(v) => if v.is_null() {
                Ok(None)
            } else {
                match narrow_u32(v.as_u64()) {
                    Some(n) => Ok(Some(n)),
                    None => Err(say_unfit(key, "' must be an integer in u32 range")),
                }
            },
        }
    }

    /// A number that is not negative.
    pub fn u64(&self, key: &str) -> (r: Result<u64, String>)
        ensures
            said(r) == u64_arg(self.0@, key@),
    {
        match self.get(key) {
            Err(e) => Err(e),
            Ok(v) => match v.as_u64() {
                Some(n) => Ok(n),
                None => Err(say_unfit(key, "' must be an unsigned integer")),
            },
        }
    }

    /// A signed number of thirty-two bits.
    pub fn i32(&self, key: &str) -> (r: Result<i32, String>)
        ensures
            said(r) == i32_arg(self.0@, key@),
    {
        match self.get(key) {
            Err(e) => Err(e),
            Ok(v) => match v.as_i64() {
                Some(n) => if -0x8000_0000 <= n && n <= 0x7fff_ffff {
                    Ok(n as i32)
                } else {
                    Err(say_unfit(key, "' must be an integer in i32 range"))
                },
                None => Err(say_unfit(key, "' must be an integer in i32 range")),
            },
        }
    }

    /// A truth value.
    pub fn bool(&self, key: &str) -> (r: Result<bool, String>)
        ensures
            said(r) == bool_arg(self.0@, key@),
    {
        match self.get(key) {
            Err(e) => Err(e),
            Ok(v) => match v.as_bool() {
                Some(b) => Ok(b),
                None => Err(say_unfit(key, "' must be a boolean")),
            },
        }
    }

    /// A list of servers with their ports.
    pub fn proxies(&self, key: &str) -> (r: Result<Vec<(String, u16)>, String>)
        ensures
            match proxies_arg(self.0@, key@) {
                Err(e) => r is Err && r->Err_0@ == e,
                Ok(l) => r is Ok && pairs_view(r->Ok_0@) == l,
            },
    {
        let v = match self.get(key) {
            Err(e) => {
                return Err(e);
            },
            Ok(v) => v,
        };
        proof {
            lemma_json_view(*v);
        }
        match v {
            Json::Array(items) => read_proxies(items),
            _ => Err(say_unfit(key, "' must be an array of objects")),
        }
    }
}

fn read_proxy(item: &Json) -> (r: Result<(String, u16), String>)
    ensures
        match proxy_entry(item@) {
            Err(e) => r is Err && r->Err_0@ == e,
            Ok(p) => r is Ok && (r->Ok_0.0@, r->Ok_0.1) == p,
        },
{
    let server = match item.get("server") {
        Some(v) => v.as_str(),
        None => None,
    };
    let server = match server {
        Some(s) => owned(s),
        None => {
            return Err(owned("proxy entry missing string 'server'"));
        },
    };
    let port = match item.get("port") {
        Some(v) => narrow_u16(v.as_u64()),
        None => None,
    };
    match port {
        Some(port) => Ok((server, port)),
        None => Err(concat(&concat("proxy '", &server), "' missing 'port' in u16 range")),
    }
}

/// The entries up to `i`, put before the outcome for the rest.
spec fn joined(
    done: Seq<(Seq<char>, u16)>,
    rest: Result<Seq<(Seq<char>, u16)>, Seq<char>>,
) -> Result<Seq<(Seq<char>, u16)>, Seq<char>> {
    match rest {
        Err(e) => Err(e),
        Ok(l) => Ok(done + l),
    }
}

fn read_proxies(items: &Vec<Json>) -> (r: Result<Vec<(String, u16)>, String>)
    ensures
        match proxy_entries(items_view(items@)) {
            Err(e) => r is Err && r->Err_0@ == e,
            Ok(l) => r is Ok && pairs_view(r->Ok_0@) == l,
        },
{
    let ghost all = items_view(items@);
    let mut out: Vec<(String, u16)> = Vec::new();
    let mut i: usize = 0;
    proof {
        assert(all.skip(0) =~= all);
        assert(proxy_entries(all) matches Ok(l) ==> pairs_view(out@) + l =~= l);
    }
    while i < items.len()
        invariant
            i <= items@.len(),
            all == items_view(items@),
            proxy_entries(all) == joined(pairs_view(out@), proxy_entries(all.skip(i as int))),
        decreases items@.len() - i,
    {
        let ghost before = pairs_view(out@);
        let ghost rest = all.skip(i as int);
        assert(rest.skip(1) =~= all.skip(i + 1));
        assert(rest[0] == items@[i as int]@);
        match read_proxy(&items[i]) {
            Err(e) => {
                return Err(e);
            },
            Ok(p) => {
                out.push(p);
                proof {
                    assert(pairs_view(out@) =~= before.push((p.0@, p.1)));
                    if let Ok(l) = proxy_entries(all.skip(i + 1)) {
                        assert(before + (seq![(p.0@, p.1)] + l) =~= pairs_view(out@) + l);
                    }
                }
            },
        }
        i = i + 1;
    }
    proof {
        assert(all.skip(i as int) =~= Seq::empty());
        assert(pairs_view(out@) + Seq::<(Seq<char>, u16)>::empty() =~= pairs_view(out@));
    }
    Ok(out)
}

} // verus!
