//! Extraction of subdomain labels from an HTTP `Host` header value.
//!
//! The header value is processed in three steps: an optional `:<port>`
//! suffix is cut off, stray double-quote and backslash characters are
//! removed, and the remaining hostname is split on `.` into labels. When
//! more than two labels remain, every label but the last two (registrable
//! domain and top-level label) is returned in its original left-to-right
//! order; with two labels or fewer there is no subdomain and the result is
//! empty. The extraction is total: every input string yields a result.

use vstd::prelude::*;

verus! {

/// The hostname part of a header value: everything before the first `:`,
/// or the whole value when no `:` occurs.
pub open spec fn strip_port(s: Seq<char>) -> Seq<char>
    decreases s.len(),
{
    if s.len() == 0 {
        s
    } else if s[0] == ':' {
        Seq::empty()
    } else {
        seq![s[0]] + strip_port(s.drop_first())
    }
}

/// Whether a character survives sanitization: stray double quotes and
/// backslashes are removed, every other character is kept.
pub open spec fn keeps_char(c: char) -> bool {
    c != '"' && c != '\\'
}

/// A hostname with the stray quote and escape characters removed.
pub open spec fn sanitize(s: Seq<char>) -> Seq<char>
    decreases s.len(),
{
    if s.len() == 0 {
        s
    } else if keeps_char(s.last()) {
        sanitize(s.drop_last()).push(s.last())
    } else {
        sanitize(s.drop_last())
    }
}

/// The dot-separated labels of `s`, given the partial label `cur` read so
/// far: a `.` closes the current label, any other character extends it,
/// and the end of the string closes the last label.
pub open spec fn split_from(s: Seq<char>, cur: Seq<char>) -> Seq<Seq<char>>
    decreases s.len(),
{
    if s.len() == 0 {
        seq![cur]
    } else if s[0] == '.' {
        seq![cur] + split_from(s.drop_first(), Seq::empty())
    } else {
        split_from(s.drop_first(), cur.push(s[0]))
    }
}

/// The ordered dot-separated labels of a hostname. There is always at
/// least one label: the empty hostname has a single empty label.
pub open spec fn split_labels(s: Seq<char>) -> Seq<Seq<char>> {
    split_from(s, Seq::empty())
}

/// The label list of a raw header value: port stripped, hostname
/// sanitized, then split on `.`.
pub open spec fn labels_of(host: Seq<char>) -> Seq<Seq<char>> {
    split_labels(sanitize(strip_port(host)))
}

/// The subdomain labels of a raw header value: all labels except the last
/// two, and none at all when the hostname has two labels or fewer.
pub open spec fn subdomains_of(host: Seq<char>) -> Seq<Seq<char>> {
    let labels = labels_of(host);
    if labels.len() > 2 {
        labels.take(labels.len() - 2)
    } else {
        Seq::empty()
    }
}

/// `strip_port` keeps exactly the prefix that ends at the first `:`, or
/// the whole string when no `:` occurs before position `i == len`.
proof fn lemma_strip_port_take(s: Seq<char>, i: int)
    requires
        0 <= i <= s.len(),
        forall|j: int| 0 <= j < i ==> s[j] != ':',
        i == s.len() || s[i] == ':',
    ensures
        strip_port(s) == s.take(i),
    decreases i,
{
    if i == 0 {
        if s.len() == 0 {
            assert(s.take(0) =~= s);
        } else {
            assert(strip_port(s) =~= s.take(0));
        }
    } else {
        let rest = s.drop_first();
        assert forall|j: int| 0 <= j < i - 1 implies rest[j] != ':' by {
            assert(rest[j] == s[j + 1]);
        }
        if i < s.len() {
            assert(rest[i - 1] == s[i]);
        }
        lemma_strip_port_take(rest, i - 1);
        assert(seq![s[0]] + rest.take(i - 1) =~= s.take(i));
    }
}

/// Every character that sanitization leaves in place survives it.
proof fn lemma_sanitize_keeps(s: Seq<char>)
    ensures
        forall|j: int| 0 <= j < sanitize(s).len() ==> keeps_char(#[trigger] sanitize(s)[j]),
    decreases s.len(),
{
    if s.len() > 0 {
        let dl = s.drop_last();
        lemma_sanitize_keeps(dl);
        if keeps_char(s.last()) {
            assert forall|j: int| 0 <= j < sanitize(s).len() implies keeps_char(
                #[trigger] sanitize(s)[j],
            ) by {
                if j < sanitize(dl).len() {
                    assert(sanitize(s)[j] == sanitize(dl)[j]);
                } else {
                    assert(sanitize(s)[j] == s.last());
                }
            }
        }
    }
}

/// A string whose characters all survive sanitization is left unchanged.
proof fn lemma_sanitize_clean_identity(s: Seq<char>)
    requires
        forall|j: int| 0 <= j < s.len() ==> keeps_char(s[j]),
    ensures
        sanitize(s) == s,
    decreases s.len(),
{
    if s.len() > 0 {
        lemma_sanitize_clean_identity(s.drop_last());
        assert(sanitize(s.drop_last()).push(s.last()) =~= s);
    }
}

/// Sanitizing an already-sanitized string changes nothing: the removal of
/// quote and backslash characters is idempotent.
pub proof fn lemma_sanitize_idempotent(label: Seq<char>)
    ensures
        sanitize(sanitize(label)) == sanitize(label),
{
    lemma_sanitize_keeps(label);
    lemma_sanitize_clean_identity(sanitize(label));
}

/// A copy of `s` without double-quote and backslash characters.
pub fn sanitize_host(s: &str) -> (r: String)
    ensures
        r@ == sanitize(s@),
{
    let n = s.unicode_len();
    let mut out = String::new();
    let mut i: usize = 0;
    while i < n
        invariant
            i <= n,
            n == s@.len(),
            out@ == sanitize(s@.take(i as int)),
        decreases n - i,
    {
        let c = s.get_char(i);
        if c != '"' && c != '\\' {
            let piece = s.substring_char(i, i + 1);
            out.append(piece);
            proof {
                assert(s@.subrange(i as int, i + 1) =~= seq![s@[i as int]]);
            }
        }
        proof {
            assert(s@.take(i + 1).drop_last() =~= s@.take(i as int));
            assert(s@.take(i + 1).last() == s@[i as int]);
            if keeps_char(s@[i as int]) {
                assert(out@ =~= sanitize(s@.take(i as int)).push(s@[i as int]));
            }
        }
        i += 1;
    }
    proof {
        assert(s@.take(n as int) =~= s@);
    }
    out
}

/// Index of the first `:` in `host`, or its length when none occurs.
fn find_colon(host: &str) -> (e: usize)
    ensures
        e <= host@.len(),
        forall|j: int| 0 <= j < e ==> host@[j] != ':',
        e < host@.len() ==> host@[e as int] == ':',
{
    let n = host.unicode_len();
    let mut i: usize = 0;
    while i < n
        invariant
            i <= n,
            n == host@.len(),
            forall|j: int| 0 <= j < i ==> host@[j] != ':',
        decreases n - i,
    {
        if host.get_char(i) == ':' {
            return i;
        }
        i += 1;
    }
    i
}

/// Splits a hostname into its dot-separated labels, in order.
fn split_host(s: &str) -> (r: Vec<String>)
    ensures
        r.deep_view() == split_labels(s@),
{
    let n = s.unicode_len();
    let mut labels: Vec<String> = Vec::new();
    let mut start: usize = 0;
    let mut i: usize = 0;
    proof {
        assert(labels.deep_view() =~= Seq::<Seq<char>>::empty());
        assert(s@.skip(0) =~= s@);
        assert(s@.subrange(0, 0) =~= Seq::<char>::empty());
    }
    while i < n
        invariant
            start <= i <= n,
            n == s@.len(),
            labels.deep_view() + split_from(s@.skip(i as int), s@.subrange(start as int, i as int))
                == split_labels(s@),
        decreases n - i,
    {
        let ghost pre = labels.deep_view();
        let ghost cur = s@.subrange(start as int, i as int);
        proof {
            assert(s@.skip(i as int)[0] == s@[i as int]);
            assert(s@.skip(i as int).drop_first() =~= s@.skip(i + 1));
        }
        let c = s.get_char(i);
        if c == '.' {
            let label = s.substring_char(start, i);
            labels.push(String::from_str(label));
            start = i + 1;
            proof {
                assert(labels.deep_view() =~= pre + seq![cur]);
                assert(pre + seq![cur] + split_from(s@.skip(i + 1), Seq::empty()) =~= pre + (
                seq![cur] + split_from(s@.skip(i + 1), Seq::empty())));
                assert(s@.subrange(i + 1, i + 1) =~= Seq::<char>::empty());
            }
        } else {
            proof {
                assert(s@.subrange(start as int, i + 1) =~= cur.push(s@[i as int]));
            }
        }
        i += 1;
    }
    proof {
        assert(s@.skip(n as int) =~= Seq::<char>::empty());
    }
    let ghost pre = labels.deep_view();
    let ghost cur = s@.subrange(start as int, n as int);
    let last = s.substring_char(start, n);
    labels.push(String::from_str(last));
    proof {
        assert(labels.deep_view() =~= pre + seq![cur]);
    }
    labels
}

/// The ordered subdomain labels of a raw `Host` header value: every label
/// of the hostname except the registrable domain and the top-level label,
/// each free of stray quote and backslash characters. Empty when the
/// hostname has two labels or fewer.
pub fn extract(host: &str) -> (r: Vec<String>)
    ensures
        r.deep_view() == subdomains_of(host@),
        labels_of(host@).len() > 2 ==> r.deep_view() == labels_of(host@).take(
            labels_of(host@).len() - 2,
        ),
        labels_of(host@).len() <= 2 ==> r@.len() == 0,
{
    let e = find_colon(host);
    let hostname = host.substring_char(0, e);
    proof {
        lemma_strip_port_take(host@, e as int);
        assert(host@.subrange(0, e as int) =~= host@.take(e as int));
    }
    let clean = sanitize_host(hostname);
    let mut labels = split_host(clean.as_str());
    let ghost all = labels.deep_view();
    let n = labels.len();
    if n > 2 {
        labels.truncate(n - 2);
        proof {
            assert(labels.deep_view() =~= all.take(all.len() - 2));
        }
        labels
    } else {
        let empty: Vec<String> = Vec::new();
        proof {
            assert(empty.deep_view() =~= Seq::<Seq<char>>::empty());
        }
        empty
    }
}

/// A `:<port>` suffix never changes the extracted subdomains: whatever
/// follows the first `:` is cut off before the hostname is read.
pub proof fn lemma_port_suffix_irrelevant(host: Seq<char>, port: Seq<char>)
    requires
        forall|j: int| 0 <= j < host.len() ==> host[j] != ':',
    ensures
        subdomains_of(host + seq![':'] + port) == subdomains_of(host),
{
    let full = host + seq![':'] + port;
    assert forall|j: int| 0 <= j < host.len() implies full[j] != ':' by {
        assert(full[j] == host[j]);
    }
    assert(full[host.len() as int] == ':');
    lemma_strip_port_take(full, host.len() as int);
    assert(full.take(host.len() as int) =~= host);
    lemma_strip_port_take(host, host.len() as int);
    assert(host.take(host.len() as int) =~= host);
}

} // verus!
