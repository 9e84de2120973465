use vstd::prelude::*;

verus! {

/// The kind of database that a connection string names.
#[derive(Clone, Copy, Debug, PartialEq, Eq, Structural)]
pub enum Backend {
    Sqlite,
    Postgres,
}

/// A connection string whose scheme names no supported database.
#[derive(Clone, Debug)]
pub struct UnsupportedScheme {
    pub url: String,
}

pub open spec fn ascii_lower(c: char) -> char {
    if 'A' <= c && c <= 'Z' {
        ((c as u32) + 32) as char
    } else {
        c
    }
}

/// Whether `s` begins with `p` when ASCII letters of `s` are read in lower case.
pub open spec fn starts_with_lower(s: Seq<char>, p: Seq<char>) -> bool {
    p.len() <= s.len() && forall|i: int| 0 <= i < p.len() ==> ascii_lower(#[trigger] s[i]) == p[i]
}

pub open spec fn postgres_scheme() -> Seq<char> {
    seq!['p', 'o', 's', 't', 'g', 'r', 'e', 's', ':', '/', '/']
}

pub open spec fn postgresql_scheme() -> Seq<char> {
    seq!['p', 'o', 's', 't', 'g', 'r', 'e', 's', 'q', 'l', ':', '/', '/']
}

pub open spec fn sqlite_scheme() -> Seq<char> {
    seq!['s', 'q', 'l', 'i', 't', 'e', ':']
}

/// The backend of a connection string, by its scheme, ignoring ASCII case.
pub open spec fn backend_spec(url: Seq<char>) -> Option<Backend> {
    if starts_with_lower(url, postgres_scheme()) || starts_with_lower(url, postgresql_scheme()) {
        Some(Backend::Postgres)
    } else if starts_with_lower(url, sqlite_scheme()) {
        Some(Backend::Sqlite)
    } else {
        None
    }
}

fn lower_char(c: char) -> (r: char)
    ensures
        r == ascii_lower(c),
{
    if 'A' <= c && c <= 'Z' {
        let u = c as u32 + 32;
        // an ASCII lower-case letter
        let b = u as u8;
        b as char
    } else {
        c
    }
}

fn starts_with_ignore_case(s: &str, p: &str) -> (r: bool)
    ensures
        r == starts_with_lower(s@, p@),
{
    let n = s.unicode_len();
    let m = p.unicode_len();
    if m > n {
        return false;
    }
    let mut i: usize = 0;
    while i < m
        invariant
            n == s@.len(),
            m == p@.len(),
            m <= n,
            i <= m,
            forall|j: int| 0 <= j < i ==> ascii_lower(#[trigger] s@[j]) == p@[j],
        decreases m - i,
    {
        if lower_char(s.get_char(i)) != p.get_char(i) {
            return false;
        }
        i = i + 1;
    }
    true
}

/// The backend that a connection string names: `postgres://` or `postgresql://` for
/// Postgres, `sqlite:` for SQLite, in any ASCII case; any other scheme is refused.
pub fn detect_backend_from_url(url: &str) -> (r: Result<Backend, UnsupportedScheme>)
    ensures
        match r {
            Ok(b) => backend_spec(url@) == Some(b),
            Err(e) => backend_spec(url@) is None && e.url@ == url@,
        },
{
    let pg = "postgres://";
    let pgl = "postgresql://";
    let lite = "sqlite:";
    proof {
        reveal_strlit("postgres://");
        reveal_strlit("postgresql://");
        reveal_strlit("sqlite:");
        assert(pg@ =~= postgres_scheme());
        assert(pgl@ =~= postgresql_scheme());
        assert(lite@ =~= sqlite_scheme());
    }
    if starts_with_ignore_case(url, pg) || starts_with_ignore_case(url, pgl) {
        Ok(Backend::Postgres)
    } else if starts_with_ignore_case(url, lite) {
        Ok(Backend::Sqlite)
    } else {
        Err(UnsupportedScheme { url: String::from_str(url) })
    }
}

} // verus!
