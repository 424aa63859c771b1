use vstd::prelude::*;
use vstd::string::StrSliceExecFns;

verus! {

/// The ASCII whitespace characters removed by token trimming.
pub open spec fn is_space_char(c: char) -> bool {
    c == ' ' || c == '\t' || c == '\n' || c == '\r'
}

/// Number of leading whitespace characters of `s`.
pub open spec fn count_leading(s: Seq<char>) -> int
    decreases s.len(),
{
    if s.len() == 0 {
        0
    } else if is_space_char(s[0]) {
        1 + count_leading(s.drop_first())
    } else {
        0
    }
}

/// Number of trailing whitespace characters of `s`.
pub open spec fn count_trailing(s: Seq<char>) -> int
    decreases s.len(),
{
    if s.len() == 0 {
        0
    } else if is_space_char(s[s.len() - 1]) {
        1 + count_trailing(s.drop_last())
    } else {
        0
    }
}

/// `s` without its leading and trailing whitespace.
pub open spec fn trim_spaces(s: Seq<char>) -> Seq<char> {
    if count_leading(s) == s.len() {
        Seq::empty()
    } else {
        s.subrange(count_leading(s), s.len() - count_trailing(s))
    }
}

/// What `str::to_lowercase` returns: a function of the characters alone.
pub uninterp spec fn lower_of(s: Seq<char>) -> Seq<char>;

/// Relies on str::to_lowercase: the result depends on the characters alone,
/// and an empty string stays empty.
#[verifier::external_body]
fn lowercase(s: &str) -> (r: String)
    ensures
        r@ == lower_of(s@),
        s@.len() == 0 ==> r@.len() == 0,
{
    s.to_lowercase()
}

fn is_space(c: char) -> (r: bool)
    ensures
        r == is_space_char(c),
{
    c == ' ' || c == '\t' || c == '\n' || c == '\r'
}

proof fn lemma_count_leading(s: Seq<char>, i: int)
    requires
        0 <= i <= s.len(),
        forall|j: int| 0 <= j < i ==> is_space_char(s[j]),
        i < s.len() ==> !is_space_char(s[i]),
    ensures
        count_leading(s) == i,
    decreases i,
{
    if i == 0 {
    } else {
        assert(is_space_char(s[0]));
        assert forall|j: int| 0 <= j < i - 1 implies is_space_char(s.drop_first()[j]) by {
            assert(s.drop_first()[j] == s[j + 1]);
        }
        if i - 1 < s.drop_first().len() {
            assert(s.drop_first()[i - 1] == s[i]);
        }
        lemma_count_leading(s.drop_first(), i - 1);
    }
}

proof fn lemma_count_trailing(s: Seq<char>, t: int)
    requires
        0 <= t <= s.len(),
        forall|j: int| s.len() - t <= j < s.len() ==> is_space_char(s[j]),
        t < s.len() ==> !is_space_char(s[s.len() - t - 1]),
    ensures
        count_trailing(s) == t,
    decreases t,
{
    if t == 0 {
    } else {
        assert(is_space_char(s[s.len() - 1]));
        let d = s.drop_last();
        assert forall|j: int| d.len() - (t - 1) <= j < d.len() implies is_space_char(d[j]) by {
            assert(d[j] == s[j]);
        }
        if t - 1 < d.len() {
            assert(d[d.len() - (t - 1) - 1] == s[s.len() - t - 1]);
        }
        lemma_count_trailing(d, t - 1);
    }
}

/// `s` with leading and trailing ASCII whitespace removed.
pub fn trim_token(s: &str) -> (r: &str)
    ensures
        r@ == trim_spaces(s@),
{
    let n = s.unicode_len();
    let mut i: usize = 0;
    while i < n && is_space(s.get_char(i))
        invariant
            n == s@.len(),
            i <= n,
            forall|j: int| 0 <= j < i ==> is_space_char(s@[j]),
        decreases n - i,
    {
        i = i + 1;
    }
    if i == n {
        proof {
            lemma_count_leading(s@, n as int);
        }
        let r = s.substring_char(0, 0);
        proof {
            assert(r@ =~= Seq::<char>::empty());
        }
        r
    } else {
        proof {
            lemma_count_leading(s@, i as int);
        }
        let mut j: usize = n;
        while j > i + 1 && is_space(s.get_char(j - 1))
            invariant
                n == s@.len(),
                i < n,
                !is_space_char(s@[i as int]),
                i + 1 <= j <= n,
                forall|k: int| j <= k < n ==> is_space_char(s@[k]),
            decreases j,
        {
            j = j - 1;
        }
        proof {
            if j == i + 1 {
                assert(!is_space_char(s@[j - 1]));
            }
            lemma_count_trailing(s@, (n - j) as int);
        }
        s.substring_char(i, j)
    }
}

/// The token trimmed, then lowercased: how engine and model names are
/// normalized before they are stored.
pub fn normalize_token(s: &str) -> (r: String)
    ensures
        r@ == lower_of(trim_spaces(s@)),
{
    let t = trim_token(s);
    lowercase(t)
}

/// Character-for-character string equality.
pub fn str_eq(a: &str, b: &str) -> (r: bool)
    ensures
        r == (a@ == b@),
{
    let n = a.unicode_len();
    let m = b.unicode_len();
    if n != m {
        proof {
            assert(a@.len() != b@.len());
        }
        return false;
    }
    let mut i: usize = 0;
    while i < n
        invariant
            n == a@.len(),
            n == b@.len(),
            i <= n,
            forall|j: int| 0 <= j < i ==> a@[j] == b@[j],
        decreases n - i,
    {
        if a.get_char(i) != b.get_char(i) {
            return false;
        }
        i = i + 1;
    }
    proof {
        assert(a@ =~= b@);
    }
    true
}

} // verus!
