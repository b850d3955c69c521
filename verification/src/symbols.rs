//! The symbol table: one dictionary per categorical field of a log record,
//! and the path dictionary with its directory hierarchy.

use vstd::prelude::*;
use vstd::string::StringSliceAdditionalSpecFns;
use vstd::utf8::{encode_utf8, is_ascii_chars_encode_utf8};
use crate::interner::{Interner, lemma_encode_injective};
use crate::parser::LogLine;
use crate::text::{
    SLASH, bytes_end_with, count_of, ends_with, last_index_of, lemma_count_of_before_last,
    lemma_count_of_prefix, lemma_last_index_of, lemma_last_index_of_is, matches_at, occurs_at, rfind_byte, slice_str,
};

verus! {

/// `p` without its trailing slashes.
pub open spec fn normalize(p: Seq<u8>) -> Seq<u8>
    decreases p.len(),
{
    if p.len() > 0 && p.last() == SLASH {
        normalize(p.drop_last())
    } else {
        p
    }
}

/// `p` has a slash after its first byte, and so a directory above it.
pub open spec fn has_parent(p: Seq<u8>) -> bool {
    last_index_of(p, SLASH) > 0
}

/// The directory above `p`: what stands before the last slash of `p`,
/// without trailing slashes.
pub open spec fn parent(p: Seq<u8>) -> Seq<u8> {
    normalize(p.subrange(0, last_index_of(p, SLASH)))
}

/// The number of slashes in `p`.
pub open spec fn depth(p: Seq<u8>) -> nat {
    count_of(p, SLASH)
}

/// Every path with a directory above it has that directory in `names` too.
pub open spec fn closed_under_parents(names: Seq<Seq<u8>>) -> bool {
    forall|i: int|
        0 <= i < names.len() && has_parent(#[trigger] names[i]) ==> names.contains(
            parent(names[i]),
        )
}

/// The paths that entering `p` adds to `names`, in the order in which they
/// are added: the directories above `p` that are not yet known, outermost
/// first, and then `p` itself.
pub open spec fn missing_chain(names: Seq<Seq<u8>>, p: Seq<u8>) -> Seq<Seq<u8>>
    decreases p.len(),
    via missing_chain_decreases
{
    if names.contains(p) {
        Seq::empty()
    } else if has_parent(p) {
        missing_chain(names, parent(p)).push(p)
    } else {
        seq![p]
    }
}

#[via_fn]
proof fn missing_chain_decreases(names: Seq<Seq<u8>>, p: Seq<u8>) {
    if !names.contains(p) && has_parent(p) {
        lemma_parent_shorter(p);
    }
}

/// What is left of a path without its trailing slashes is a beginning of
/// the path that ends with no slash, and has no slashes to lose.
pub proof fn lemma_normalize(p: Seq<u8>)
    ensures
        normalize(p).len() <= p.len(),
        normalize(p) == p.subrange(0, normalize(p).len() as int),
        normalize(p).len() > 0 ==> normalize(p).last() != SLASH,
        normalize(normalize(p)) == normalize(p),
    decreases p.len(),
{
    if p.len() > 0 && p.last() == SLASH {
        let q = p.drop_last();
        lemma_normalize(q);
        assert(q.subrange(0, normalize(q).len() as int) =~= p.subrange(
            0,
            normalize(q).len() as int,
        ));
    } else {
        assert(p.subrange(0, p.len() as int) =~= p);
    }
}

/// The directory above a path is shorter than the path and has fewer
/// slashes.
pub proof fn lemma_parent_shorter(p: Seq<u8>)
    requires
        has_parent(p),
    ensures
        parent(p).len() < p.len(),
        depth(parent(p)) < depth(p),
{
    lemma_last_index_of(p, SLASH);
    let k = last_index_of(p, SLASH);
    let prefix = p.subrange(0, k);
    lemma_normalize(prefix);
    lemma_count_of_before_last(p, SLASH);
    lemma_count_of_prefix(prefix, SLASH, normalize(prefix).len() as int);
}

/// What `missing_chain` adds is never longer than the path allows, holds
/// only paths no longer than `p`, none of them known before, and ends with
/// `p` unless `p` was known.
pub proof fn lemma_missing_chain(names: Seq<Seq<u8>>, p: Seq<u8>)
    ensures
        missing_chain(names, p).len() <= p.len() + 1,
        forall|i: int|
            0 <= i < missing_chain(names, p).len() ==> (#[trigger] missing_chain(names, p)[i]).len()
                <= p.len() && !names.contains(missing_chain(names, p)[i]),
        (names + missing_chain(names, p)).contains(p),
        names.no_duplicates() ==> (names + missing_chain(names, p)).no_duplicates(),
        closed_under_parents(names) ==> closed_under_parents(names + missing_chain(names, p)),
    decreases p.len(),
{
    let chain = missing_chain(names, p);
    let all = names + chain;
    if names.contains(p) {
        assert(all =~= names);
    } else if has_parent(p) {
        let q = parent(p);
        lemma_parent_shorter(p);
        lemma_missing_chain(names, q);
        let inner = missing_chain(names, q);
        let before = names + inner;
        assert(all =~= before.push(p));
        assert(all[all.len() - 1] == p);
        assert forall|i: int| 0 <= i < chain.len() implies (#[trigger] chain[i]).len() <= p.len()
            && !names.contains(chain[i]) by {
            if i < inner.len() {
                assert(chain[i] == inner[i]);
            }
        }
        assert(!before.contains(p)) by {
            if before.contains(p) {
                let i = choose|i: int| 0 <= i < before.len() && before[i] == p;
                if i < names.len() {
                    assert(names[i] == p);
                } else {
                    assert(inner[i - names.len()] == p);
                }
            }
        }
        if names.no_duplicates() {
            assert forall|i: int, j: int| 0 <= i < all.len() && 0 <= j < all.len() && i
                != j implies all[i] != all[j] by {
                if i < before.len() && j < before.len() {
                    assert(before[i] != before[j]);
                } else if i < before.len() {
                    assert(before.contains(before[i]));
                } else {
                    assert(before.contains(before[j]));
                }
            }
        }
        if closed_under_parents(names) {
            assert(before.contains(q));
            assert forall|i: int| 0 <= i < all.len() && has_parent(#[trigger] all[i]) implies all.contains(
                parent(all[i]),
            ) by {
                let target = if i < before.len() {
                    parent(before[i])
                } else {
                    q
                };
                assert(before.contains(target));
                let k = choose|k: int| 0 <= k < before.len() && before[k] == target;
                assert(all[k] == target);
            }
        }
    } else {
        assert(all =~= names.push(p));
        assert(all[all.len() - 1] == p);
        if names.no_duplicates() {
            assert forall|i: int, j: int| 0 <= i < all.len() && 0 <= j < all.len() && i
                != j implies all[i] != all[j] by {
                if i < names.len() && j < names.len() {
                    assert(names[i] != names[j]);
                } else if i < names.len() {
                    assert(names.contains(names[i]));
                } else {
                    assert(names.contains(names[j]));
                }
            }
        }
        if closed_under_parents(names) {
            assert forall|i: int| 0 <= i < all.len() && has_parent(#[trigger] all[i]) implies all.contains(
                parent(all[i]),
            ) by {
                let target = parent(names[i]);
                assert(names.contains(target));
                let k = choose|k: int| 0 <= k < names.len() && names[k] == target;
                assert(all[k] == target);
            }
        }
    }
}


/// The byte is an ASCII letter or digit.
pub open spec fn is_ascii_alphanumeric(b: u8) -> bool {
    (48 <= b <= 57) || (65 <= b <= 90) || (97 <= b <= 122)
}

/// `w` occurs in `s` at a place where a word ends: at the end of `s`, or
/// before a byte that is no ASCII letter or digit.
pub open spec fn at_word_end(s: Seq<u8>, w: Seq<u8>) -> bool {
    exists|i: int| occurs_at(s, w, i) && word_ends_at(s, i + w.len())
}

/// No ASCII letter or digit stands at position `i` of `s`.
pub open spec fn word_ends_at(s: Seq<u8>, i: int) -> bool {
    i >= s.len() || !is_ascii_alphanumeric(s[i])
}

/// The user agent names a crawler, a feed reader or an HTTP library.
pub open spec fn is_bot(ua: Seq<u8>) -> bool {
    ||| at_word_end(ua, "bot".spec_bytes())
    ||| at_word_end(ua, "Bot".spec_bytes())
    ||| at_word_end(ua, "crawler".spec_bytes())
    ||| at_word_end(ua, "Crawler".spec_bytes())
    ||| at_word_end(ua, "spider".spec_bytes())
    ||| at_word_end(ua, "Spider".spec_bytes())
    ||| at_word_end(ua, "http-client".spec_bytes())
    ||| at_word_end(ua, "curl".spec_bytes())
    ||| at_word_end(ua, "check_http".spec_bytes())
    ||| at_word_end(ua, "Miniflux".spec_bytes())
    ||| at_word_end(ua, "Feedly".spec_bytes())
    ||| at_word_end(ua, "okhttp".spec_bytes())
    ||| at_word_end(ua, "Zapier".spec_bytes())
}

fn is_alphanumeric_byte(b: u8) -> (r: bool)
    ensures
        r == is_ascii_alphanumeric(b),
{
    (48 <= b && b <= 57) || (65 <= b && b <= 90) || (97 <= b && b <= 122)
}

/// Whether `w` occurs in `s` where a word ends.
pub fn ends_word(s: &[u8], w: &[u8]) -> (r: bool)
    ensures
        r == at_word_end(s@, w@),
{
    if w.len() > s.len() {
        assert(forall|i: int| !occurs_at(s@, w@, i));
        return false;
    }
    let n: usize = s.len();
    let last: usize = n - w.len();
    let mut i: usize = 0;
    while i <= last
        invariant
            n == s@.len(),
            last == s@.len() - w@.len(),
            i <= last,
            forall|j: int| 0 <= j < i ==> !(occurs_at(s@, w@, j) && word_ends_at(s@, j + w@.len())),
        decreases last - i,
    {
        if matches_at(s, w, i) {
            if i == last || !is_alphanumeric_byte(s[i + w.len()]) {
                return true;
            }
        }
        if i == last {
            assert(forall|j: int| occurs_at(s@, w@, j) ==> j <= last);
            return false;
        }
        i += 1;
    }
    false
}

/// Whether the user agent names a crawler, a feed reader or an HTTP
/// library: one of the known words occurs in it where a word ends.
pub fn is_bot_user_agent(ua: &str) -> (r: bool)
    ensures
        r == is_bot(ua.spec_bytes()),
{
    let s = ua.as_bytes();
    ends_word(s, "bot".as_bytes()) || ends_word(s, "Bot".as_bytes()) || ends_word(
        s,
        "crawler".as_bytes(),
    ) || ends_word(s, "Crawler".as_bytes()) || ends_word(s, "spider".as_bytes()) || ends_word(
        s,
        "Spider".as_bytes(),
    ) || ends_word(s, "http-client".as_bytes()) || ends_word(s, "curl".as_bytes()) || ends_word(
        s,
        "check_http".as_bytes(),
    ) || ends_word(s, "Miniflux".as_bytes()) || ends_word(s, "Feedly".as_bytes()) || ends_word(
        s,
        "okhttp".as_bytes(),
    ) || ends_word(s, "Zapier".as_bytes())
}

/// The path ends like a script, a style sheet, a font, an icon or a feed.
pub open spec fn has_asset_extension(p: Seq<u8>) -> bool {
    ||| ends_with(p, ".js".spec_bytes())
    ||| ends_with(p, ".css".spec_bytes())
    ||| ends_with(p, ".ico".spec_bytes())
    ||| ends_with(p, ".svg".spec_bytes())
    ||| ends_with(p, ".woff".spec_bytes())
    ||| ends_with(p, ".woff2".spec_bytes())
    ||| ends_with(p, ".ttf".spec_bytes())
    ||| ends_with(p, ".eot".spec_bytes())
    ||| ends_with(p, ".otf".spec_bytes())
    ||| ends_with(p, ".feed".spec_bytes())
}

/// The path ends like an image.
pub open spec fn has_image_extension(p: Seq<u8>) -> bool {
    ||| ends_with(p, ".png".spec_bytes())
    ||| ends_with(p, ".jpg".spec_bytes())
    ||| ends_with(p, ".gif".spec_bytes())
    ||| ends_with(p, ".svg".spec_bytes())
}

fn asset_extension(p: &[u8]) -> (r: bool)
    ensures
        r == has_asset_extension(p@),
{
    bytes_end_with(p, ".js".as_bytes()) || bytes_end_with(p, ".css".as_bytes()) || bytes_end_with(
        p,
        ".ico".as_bytes(),
    ) || bytes_end_with(p, ".svg".as_bytes()) || bytes_end_with(p, ".woff".as_bytes())
        || bytes_end_with(p, ".woff2".as_bytes()) || bytes_end_with(p, ".ttf".as_bytes())
        || bytes_end_with(p, ".eot".as_bytes()) || bytes_end_with(p, ".otf".as_bytes())
        || bytes_end_with(p, ".feed".as_bytes())
}

fn image_extension(p: &[u8]) -> (r: bool)
    ensures
        r == has_image_extension(p@),
{
    bytes_end_with(p, ".png".as_bytes()) || bytes_end_with(p, ".jpg".as_bytes()) || bytes_end_with(
        p,
        ".gif".as_bytes(),
    ) || bytes_end_with(p, ".svg".as_bytes())
}


/// The paths that every table knows from the start, in the order of their
/// ids, which begin at 0.
pub open spec fn seed_paths() -> Seq<Seq<u8>> {
    seq![
        "/".spec_bytes(),
        "/index.html".spec_bytes(),
        "css".spec_bytes(),
        "js".spec_bytes(),
        "img".spec_bytes(),
        "rest".spec_bytes(),
        "api".spec_bytes(),
        "admin".spec_bytes(),
    ]
}

/// The content types that every table knows from the start, in the order
/// of their ids, which begin at 0.
pub open spec fn seed_content_types() -> Seq<Seq<u8>> {
    seq![
        "".spec_bytes(),
        "text/html".spec_bytes(),
        "text/css".spec_bytes(),
        "text/javascript".spec_bytes(),
        "application/javascript".spec_bytes(),
        "text/json".spec_bytes(),
        "application/json".spec_bytes(),
        "image/png".spec_bytes(),
        "image/jpeg".spec_bytes(),
        "image/gif".spec_bytes(),
        "image/svg+xml".spec_bytes(),
    ]
}

/// Different texts have different bytes.
pub proof fn lemma_distinct_texts(a: Seq<char>, b: Seq<char>)
    requires
        a != b,
    ensures
        encode_utf8(a) != encode_utf8(b),
{
    if encode_utf8(a) == encode_utf8(b) {
        lemma_encode_injective(a, b);
    }
}

proof fn lemma_seed_paths_distinct()
    ensures
        seed_paths().no_duplicates(),
{
    reveal_strlit("/");
    reveal_strlit("/index.html");
    reveal_strlit("css");
    reveal_strlit("js");
    reveal_strlit("img");
    reveal_strlit("rest");
    reveal_strlit("api");
    reveal_strlit("admin");
    lemma_distinct_texts("/"@, "/index.html"@);
    lemma_distinct_texts("/"@, "css"@);
    lemma_distinct_texts("/index.html"@, "css"@);
    lemma_distinct_texts("/"@, "js"@);
    lemma_distinct_texts("/index.html"@, "js"@);
    lemma_distinct_texts("css"@, "js"@);
    lemma_distinct_texts("/"@, "img"@);
    lemma_distinct_texts("/index.html"@, "img"@);
    assert("css"@[0] != "img"@[0]);
    lemma_distinct_texts("css"@, "img"@);
    lemma_distinct_texts("js"@, "img"@);
    lemma_distinct_texts("/"@, "rest"@);
    lemma_distinct_texts("/index.html"@, "rest"@);
    lemma_distinct_texts("css"@, "rest"@);
    lemma_distinct_texts("js"@, "rest"@);
    lemma_distinct_texts("img"@, "rest"@);
    lemma_distinct_texts("/"@, "api"@);
    lemma_distinct_texts("/index.html"@, "api"@);
    assert("css"@[0] != "api"@[0]);
    lemma_distinct_texts("css"@, "api"@);
    lemma_distinct_texts("js"@, "api"@);
    assert("img"@[0] != "api"@[0]);
    lemma_distinct_texts("img"@, "api"@);
    lemma_distinct_texts("rest"@, "api"@);
    lemma_distinct_texts("/"@, "admin"@);
    lemma_distinct_texts("/index.html"@, "admin"@);
    lemma_distinct_texts("css"@, "admin"@);
    lemma_distinct_texts("js"@, "admin"@);
    lemma_distinct_texts("img"@, "admin"@);
    lemma_distinct_texts("rest"@, "admin"@);
    lemma_distinct_texts("api"@, "admin"@);
}

proof fn lemma_seed_content_types_distinct()
    ensures
        seed_content_types().no_duplicates(),
{
    reveal_strlit("");
    reveal_strlit("text/html");
    reveal_strlit("text/css");
    reveal_strlit("text/javascript");
    reveal_strlit("application/javascript");
    reveal_strlit("text/json");
    reveal_strlit("application/json");
    reveal_strlit("image/png");
    reveal_strlit("image/jpeg");
    reveal_strlit("image/gif");
    reveal_strlit("image/svg+xml");
    lemma_distinct_texts(""@, "text/html"@);
    lemma_distinct_texts(""@, "text/css"@);
    lemma_distinct_texts("text/html"@, "text/css"@);
    lemma_distinct_texts(""@, "text/javascript"@);
    lemma_distinct_texts("text/html"@, "text/javascript"@);
    lemma_distinct_texts("text/css"@, "text/javascript"@);
    lemma_distinct_texts(""@, "application/javascript"@);
    lemma_distinct_texts("text/html"@, "application/javascript"@);
    lemma_distinct_texts("text/css"@, "application/javascript"@);
    lemma_distinct_texts("text/javascript"@, "application/javascript"@);
    lemma_distinct_texts(""@, "text/json"@);
    assert("text/html"@[5] != "text/json"@[5]);
    lemma_distinct_texts("text/html"@, "text/json"@);
    lemma_distinct_texts("text/css"@, "text/json"@);
    lemma_distinct_texts("text/javascript"@, "text/json"@);
    lemma_distinct_texts("application/javascript"@, "text/json"@);
    lemma_distinct_texts(""@, "application/json"@);
    lemma_distinct_texts("text/html"@, "application/json"@);
    lemma_distinct_texts("text/css"@, "application/json"@);
    lemma_distinct_texts("text/javascript"@, "application/json"@);
    lemma_distinct_texts("application/javascript"@, "application/json"@);
    lemma_distinct_texts("text/json"@, "application/json"@);
    lemma_distinct_texts(""@, "image/png"@);
    assert("text/html"@[0] != "image/png"@[0]);
    lemma_distinct_texts("text/html"@, "image/png"@);
    lemma_distinct_texts("text/css"@, "image/png"@);
    lemma_distinct_texts("text/javascript"@, "image/png"@);
    lemma_distinct_texts("application/javascript"@, "image/png"@);
    assert("text/json"@[0] != "image/png"@[0]);
    lemma_distinct_texts("text/json"@, "image/png"@);
    lemma_distinct_texts("application/json"@, "image/png"@);
    lemma_distinct_texts(""@, "image/jpeg"@);
    lemma_distinct_texts("text/html"@, "image/jpeg"@);
    lemma_distinct_texts("text/css"@, "image/jpeg"@);
    lemma_distinct_texts("text/javascript"@, "image/jpeg"@);
    lemma_distinct_texts("application/javascript"@, "image/jpeg"@);
    lemma_distinct_texts("text/json"@, "image/jpeg"@);
    lemma_distinct_texts("application/json"@, "image/jpeg"@);
    lemma_distinct_texts("image/png"@, "image/jpeg"@);
    lemma_distinct_texts(""@, "image/gif"@);
    assert("text/html"@[0] != "image/gif"@[0]);
    lemma_distinct_texts("text/html"@, "image/gif"@);
    lemma_distinct_texts("text/css"@, "image/gif"@);
    lemma_distinct_texts("text/javascript"@, "image/gif"@);
    lemma_distinct_texts("application/javascript"@, "image/gif"@);
    assert("text/json"@[0] != "image/gif"@[0]);
    lemma_distinct_texts("text/json"@, "image/gif"@);
    lemma_distinct_texts("application/json"@, "image/gif"@);
    assert("image/png"@[6] != "image/gif"@[6]);
    lemma_distinct_texts("image/png"@, "image/gif"@);
    lemma_distinct_texts("image/jpeg"@, "image/gif"@);
    lemma_distinct_texts(""@, "image/svg+xml"@);
    lemma_distinct_texts("text/html"@, "image/svg+xml"@);
    lemma_distinct_texts("text/css"@, "image/svg+xml"@);
    lemma_distinct_texts("text/javascript"@, "image/svg+xml"@);
    lemma_distinct_texts("application/javascript"@, "image/svg+xml"@);
    lemma_distinct_texts("text/json"@, "image/svg+xml"@);
    lemma_distinct_texts("application/json"@, "image/svg+xml"@);
    lemma_distinct_texts("image/png"@, "image/svg+xml"@);
    lemma_distinct_texts("image/jpeg"@, "image/svg+xml"@);
    lemma_distinct_texts("image/gif"@, "image/svg+xml"@);
}

proof fn lemma_seed_paths_closed()
    ensures
        closed_under_parents(seed_paths()),
{
    reveal_strlit("/");
    reveal_strlit("/index.html");
    reveal_strlit("css");
    reveal_strlit("js");
    reveal_strlit("img");
    reveal_strlit("rest");
    reveal_strlit("api");
    reveal_strlit("admin");
    assert(!has_parent("/".spec_bytes())) by {
        is_ascii_chars_encode_utf8("/"@);
        let b = "/".spec_bytes();
        assert(b[0] == 47u8);
        lemma_last_index_of_is(b, SLASH, 0);
    }
    assert(!has_parent("/index.html".spec_bytes())) by {
        is_ascii_chars_encode_utf8("/index.html"@);
        let b = "/index.html".spec_bytes();
        assert(b[0] == 47u8);
        assert(b[1] == 105u8);
        assert(b[2] == 110u8);
        assert(b[3] == 100u8);
        assert(b[4] == 101u8);
        assert(b[5] == 120u8);
        assert(b[6] == 46u8);
        assert(b[7] == 104u8);
        assert(b[8] == 116u8);
        assert(b[9] == 109u8);
        assert(b[10] == 108u8);
        lemma_last_index_of_is(b, SLASH, 0);
    }
    assert(!has_parent("css".spec_bytes())) by {
        is_ascii_chars_encode_utf8("css"@);
        let b = "css".spec_bytes();
        assert(b[0] == 99u8);
        assert(b[1] == 115u8);
        assert(b[2] == 115u8);
        lemma_last_index_of_is(b, SLASH, -1);
    }
    assert(!has_parent("js".spec_bytes())) by {
        is_ascii_chars_encode_utf8("js"@);
        let b = "js".spec_bytes();
        assert(b[0] == 106u8);
        assert(b[1] == 115u8);
        lemma_last_index_of_is(b, SLASH, -1);
    }
    assert(!has_parent("img".spec_bytes())) by {
        is_ascii_chars_encode_utf8("img"@);
        let b = "img".spec_bytes();
        assert(b[0] == 105u8);
        assert(b[1] == 109u8);
        assert(b[2] == 103u8);
        lemma_last_index_of_is(b, SLASH, -1);
    }
    assert(!has_parent("rest".spec_bytes())) by {
        is_ascii_chars_encode_utf8("rest"@);
        let b = "rest".spec_bytes();
        assert(b[0] == 114u8);
        assert(b[1] == 101u8);
        assert(b[2] == 115u8);
        assert(b[3] == 116u8);
        lemma_last_index_of_is(b, SLASH, -1);
    }
    assert(!has_parent("api".spec_bytes())) by {
        is_ascii_chars_encode_utf8("api"@);
        let b = "api".spec_bytes();
        assert(b[0] == 97u8);
        assert(b[1] == 112u8);
        assert(b[2] == 105u8);
        lemma_last_index_of_is(b, SLASH, -1);
    }
    assert(!has_parent("admin".spec_bytes())) by {
        is_ascii_chars_encode_utf8("admin"@);
        let b = "admin".spec_bytes();
        assert(b[0] == 97u8);
        assert(b[1] == 100u8);
        assert(b[2] == 109u8);
        assert(b[3] == 105u8);
        assert(b[4] == 110u8);
        lemma_last_index_of_is(b, SLASH, -1);
    }
}

/// The bytes of each text of a list.
pub open spec fn bytes_of(texts: Seq<&str>) -> Seq<Seq<u8>> {
    Seq::new(texts.len(), |i: int| texts[i].spec_bytes())
}

/// Interns distinct texts, in order, into an empty dictionary.
fn intern_all(dict: &mut Interner, texts: &Vec<&str>)
    requires
        old(dict).wf(),
        old(dict).names().len() == 0,
        bytes_of(texts@).no_duplicates(),
        texts@.len() < u32::MAX,
    ensures
        final(dict).wf(),
        final(dict).seeded() == old(dict).seeded(),
        final(dict).names() == bytes_of(texts@),
{
    let mut i: usize = 0;
    assert(dict.names() =~= bytes_of(texts@).subrange(0, 0));
    while i < texts.len()
        invariant
            dict.wf(),
            dict.seeded() == old(dict).seeded(),
            i <= texts@.len(),
            texts@.len() < u32::MAX,
            bytes_of(texts@).no_duplicates(),
            dict.names() == bytes_of(texts@).subrange(0, i as int),
        decreases texts@.len() - i,
    {
        let ghost before = dict.names();
        let ghost all = bytes_of(texts@);
        assert(!before.contains(texts@[i as int].spec_bytes())) by {
            if before.contains(texts@[i as int].spec_bytes()) {
                let j = choose|j: int|
                    0 <= j < before.len() && before[j] == texts@[i as int].spec_bytes();
                assert(all[j] == all[i as int]);
            }
        }
        dict.intern(texts[i]);
        assert(dict.names() =~= all.subrange(0, i + 1));
        i += 1;
    }
    assert(bytes_of(texts@).subrange(0, texts@.len() as int) =~= bytes_of(texts@));
}

/// The user agents of `t` that name a bot, each with its id, among the
/// first `n` that `t` holds and in the order in which `t` holds them.
pub open spec fn bots_among(t: Interner, n: int) -> Seq<(u32, Seq<u8>)>
    decreases n,
{
    if n <= 0 {
        Seq::empty()
    } else if is_bot(t.names()[n - 1]) {
        bots_among(t, n - 1).push((t.id_at(n - 1) as u32, t.names()[n - 1]))
    } else {
        bots_among(t, n - 1)
    }
}

/// The ids of the bots among the first `n` user agents grow along the list
/// and stay below the id of the next user agent.
pub proof fn lemma_bots_ascending(t: Interner, n: int)
    requires
        0 <= n <= t.names().len(),
        t.names().len() <= u32::MAX,
    ensures
        forall|i: int| 0 <= i < bots_among(t, n).len() ==> (#[trigger] bots_among(t, n)[i]).0 < t.id_at(n),
        forall|i: int, j: int|
            0 <= i < j < bots_among(t, n).len() ==> (#[trigger] bots_among(t, n)[i]).0 < (
            #[trigger] bots_among(t, n)[j]).0,
    decreases n,
{
    if n > 0 {
        lemma_bots_ascending(t, n - 1);
        let prev = bots_among(t, n - 1);
        let cur = bots_among(t, n);
        assert(t.id_at(n - 1) < t.id_at(n));
        assert forall|i: int| 0 <= i < cur.len() implies (#[trigger] cur[i]).0 < t.id_at(n) by {
            if i < prev.len() {
                assert(cur[i] == prev[i]);
            }
        }
        assert forall|i: int, j: int| 0 <= i < j < cur.len() implies (#[trigger] cur[i]).0 < (
        #[trigger] cur[j]).0 by {
            assert(cur[i] == prev[i]);
            if j < prev.len() {
                assert(cur[j] == prev[j]);
            }
        }
    }
}

/// The beginnings of `bytes` of the lengths `cuts`, in the reverse order
/// of the lengths.
pub open spec fn walked(bytes: Seq<u8>, cuts: Seq<usize>) -> Seq<Seq<u8>> {
    Seq::new(cuts.len(), |i: int| bytes.subrange(0, cuts[cuts.len() - 1 - i] as int))
}

/// The length of the first `upto` bytes of `s` without their trailing
/// slashes.
pub fn trimmed_len(s: &[u8], upto: usize) -> (r: usize)
    requires
        upto <= s@.len(),
    ensures
        r <= upto,
        normalize(s@.subrange(0, upto as int)) == s@.subrange(0, r as int),
        r == upto || s@[r as int] == SLASH,
{
    let mut r = upto;
    while r > 0 && s[r - 1] == SLASH
        invariant
            r <= upto <= s@.len(),
            normalize(s@.subrange(0, upto as int)) == normalize(s@.subrange(0, r as int)),
            r == upto || s@[r as int] == SLASH,
        decreases r,
    {
        proof {
            assert(s@.subrange(0, r as int).drop_last() =~= s@.subrange(0, r - 1));
        }
        r -= 1;
    }
    r
}

/// The symbol table. Each field is the dictionary of one field of a log
/// record.
pub struct GlobalTable {
    pub ip: Interner,
    pub http_version: Interner,
    pub method: Interner,
    pub domain: Interner,
    pub path: Interner,
    pub referer: Interner,
    pub user_agent: Interner,
    pub content_type: Interner,
    pub compression_type: Interner,
}

/// How many content types a new table knows.
pub const CONTENT_TYPE_SEEDS: usize = 11;

/// The symbol table as a mathematical value: for each dictionary the
/// strings it holds, in the order in which they came.
pub struct Symbols {
    pub ip: Seq<Seq<u8>>,
    pub http_version: Seq<Seq<u8>>,
    pub method: Seq<Seq<u8>>,
    pub domain: Seq<Seq<u8>>,
    pub path: Seq<Seq<u8>>,
    pub referer: Seq<Seq<u8>>,
    pub user_agent: Seq<Seq<u8>>,
    pub content_type: Seq<Seq<u8>>,
    pub compression_type: Seq<Seq<u8>>,
}

/// The strings of a dictionary after `b` has been interned.
pub open spec fn with_name(names: Seq<Seq<u8>>, b: Seq<u8>) -> Seq<Seq<u8>> {
    if names.contains(b) {
        names
    } else {
        names.push(b)
    }
}

/// The id of `b` in a dictionary that holds the strings `names`, the first
/// `seeded` of which carry their position as id.
pub open spec fn id_in(names: Seq<Seq<u8>>, seeded: nat, b: Seq<u8>) -> u32 {
    let pos = names.index_of(b);
    (if pos < seeded {
        pos
    } else {
        pos + 1
    }) as u32
}

/// Every dictionary can take one more string, and the path dictionary
/// `extra` more and one.
pub open spec fn room_for(t: Symbols, extra: nat) -> bool {
    &&& t.ip.len() < u32::MAX
    &&& t.http_version.len() < u32::MAX
    &&& t.method.len() < u32::MAX
    &&& t.domain.len() < u32::MAX
    &&& t.referer.len() < u32::MAX
    &&& t.user_agent.len() < u32::MAX
    &&& t.content_type.len() < u32::MAX
    &&& t.compression_type.len() < u32::MAX
    &&& t.path.len() + extra < u32::MAX
}

impl View for GlobalTable {
    type V = Symbols;

    open spec fn view(&self) -> Symbols {
        Symbols {
            ip: self.ip.names(),
            http_version: self.http_version.names(),
            method: self.method.names(),
            domain: self.domain.names(),
            path: self.path.names(),
            referer: self.referer.names(),
            user_agent: self.user_agent.names(),
            content_type: self.content_type.names(),
            compression_type: self.compression_type.names(),
        }
    }
}

impl GlobalTable {
    /// Validity of the table: each dictionary is valid and numbers its
    /// strings as it did when the table was made, the path dictionary holds
    /// the three paths that stand for whole groups of paths, and every path
    /// in it has its directory in it.
    pub open spec fn wf(&self) -> bool {
        &&& self.ip.wf() && self.ip.seeded() == 0
        &&& self.http_version.wf() && self.http_version.seeded() == 0
        &&& self.method.wf() && self.method.seeded() == 0
        &&& self.domain.wf() && self.domain.seeded() == 0
        &&& self.referer.wf() && self.referer.seeded() == 0
        &&& self.user_agent.wf() && self.user_agent.seeded() == 0
        &&& self.compression_type.wf() && self.compression_type.seeded() == 0
        &&& self.content_type.wf() && self.content_type.seeded() == CONTENT_TYPE_SEEDS
        &&& self.path.wf() && self.path.is_positional()
        &&& self.path.names().contains("admin".spec_bytes())
        &&& self.path.names().contains("css".spec_bytes())
        &&& self.path.names().contains("js".spec_bytes())
        &&& closed_under_parents(self.path.names())
    }

    /// Every dictionary can take one more string, and the path dictionary
    /// `extra` more and one.
    pub open spec fn has_room(&self, extra: nat) -> bool {
        room_for(self@, extra)
    }

    /// Whether the table has room for the symbols of a line of `extra`
    /// bytes.
    pub fn can_take(&self, extra: usize) -> (r: bool)
        ensures
            r == self.has_room(extra as nat),
    {
        let max = u32::MAX as usize;
        self.ip.len() < max && self.http_version.len() < max && self.method.len() < max
            && self.domain.len() < max && self.referer.len() < max && self.user_agent.len() < max
            && self.content_type.len() < max && self.compression_type.len() < max
            && self.path.len() < max && extra < max - self.path.len()
    }

    /// The record is a request for a script, a style sheet, a font, an icon
    /// or a feed, going by its content type or by how its path ends.
    pub open spec fn meaningless(&self, l: LogLine) -> bool {
        ||| 1 < l.content_type <= 4
        ||| self.path.name_of(l.path) matches Some(p) && has_asset_extension(p)
    }

    /// The record is a request for any static asset, images included.
    pub open spec fn probably_meaningless(&self, l: LogLine) -> bool {
        ||| 1 < l.content_type <= 10
        ||| self.path.name_of(l.path) matches Some(p) && has_image_extension(p)
    }

    /// A table that knows the seed paths and the seed content types and
    /// nothing else.
    pub fn new() -> (t: GlobalTable)
        ensures
            t.wf(),
            t.path.names() == seed_paths(),
            t.content_type.names() == seed_content_types(),
            t.ip.names().len() == 0,
            t.http_version.names().len() == 0,
            t.method.names().len() == 0,
            t.domain.names().len() == 0,
            t.referer.names().len() == 0,
            t.user_agent.names().len() == 0,
            t.compression_type.names().len() == 0,
    {
        let content_types: Vec<&str> = vec![
            "",
            "text/html",
            "text/css",
            "text/javascript",
            "application/javascript",
            "text/json",
            "application/json",
            "image/png",
            "image/jpeg",
            "image/gif",
            "image/svg+xml",
        ];
        let paths: Vec<&str> = vec!["/", "/index.html", "css", "js", "img", "rest", "api", "admin"];
        proof {
            assert(bytes_of(content_types@) =~= seed_content_types());
            assert(bytes_of(paths@) =~= seed_paths());
            lemma_seed_content_types_distinct();
            lemma_seed_paths_distinct();
            lemma_seed_paths_closed();
        }
        let mut content_type = Interner::positional();
        intern_all(&mut content_type, &content_types);
        content_type.seal();
        let mut path = Interner::positional();
        intern_all(&mut path, &paths);
        proof {
            assert(path.names()[7] == "admin".spec_bytes());
            assert(path.names()[2] == "css".spec_bytes());
            assert(path.names()[3] == "js".spec_bytes());
        }
        GlobalTable {
            ip: Interner::new(),
            http_version: Interner::new(),
            method: Interner::new(),
            domain: Interner::new(),
            path,
            referer: Interner::new(),
            user_agent: Interner::new(),
            content_type,
            compression_type: Interner::new(),
        }
    }

    /// The user agents that name a bot, each with its id, in ascending
    /// order of id.
    pub fn get_bots(&self) -> (bots: Vec<(u32, &str)>)
        requires
            self.wf(),
        ensures
            bots@.len() == bots_among(self.user_agent, self.user_agent.names().len() as int).len(),
            forall|i: int|
                0 <= i < bots@.len() ==> (#[trigger] bots@[i]).0 == bots_among(
                    self.user_agent,
                    self.user_agent.names().len() as int,
                )[i].0 && bots@[i].1.spec_bytes() == bots_among(
                    self.user_agent,
                    self.user_agent.names().len() as int,
                )[i].1,
            forall|i: int, j: int|
                0 <= i < j < bots@.len() ==> (#[trigger] bots@[i]).0 < (#[trigger] bots@[j]).0,
    {
        let mut bots: Vec<(u32, &str)> = Vec::new();
        let n = self.user_agent.len();
        let mut pos: usize = 0;
        while pos < n
            invariant
                self.wf(),
                n == self.user_agent.names().len(),
                pos <= n,
                bots@.len() == bots_among(self.user_agent, pos as int).len(),
                forall|i: int|
                    0 <= i < bots@.len() ==> (#[trigger] bots@[i]).0 == bots_among(
                        self.user_agent,
                        pos as int,
                    )[i].0 && bots@[i].1.spec_bytes() == bots_among(self.user_agent, pos as int)[i].1,
            decreases n - pos,
        {
            let name = self.user_agent.name_at(pos);
            if is_bot_user_agent(name) {
                let id = self.user_agent.id_of_position(pos);
                bots.push((id, name));
            }
            pos += 1;
        }
        proof {
            lemma_bots_ascending(self.user_agent, n as int);
        }
        bots
    }

    /// Whether the record is a request for a script, a style sheet, a font,
    /// an icon or a feed.
    pub fn is_meaningless(&self, l: &LogLine) -> (r: bool)
        requires
            self.wf(),
        ensures
            r == self.meaningless(*l),
    {
        let t = l.content_type;
        if t > 1 && t <= 4 {
            return true;
        }
        match self.path.resolve(l.path) {
            Some(path) => asset_extension(path.as_bytes()),
            None => false,
        }
    }

    /// Whether the record is a request for any static asset, images
    /// included.
    pub fn is_probably_meaningless(&self, l: &LogLine) -> (r: bool)
        requires
            self.wf(),
        ensures
            r == self.probably_meaningless(*l),
    {
        let t = l.content_type;
        if t > 1 && t <= 10 {
            return true;
        }
        match self.path.resolve(l.path) {
            Some(path) => image_extension(path.as_bytes()),
            None => false,
        }
    }

    /// Enters a path: removes its trailing slashes, and if what is left is
    /// new, first enters the directory above it and then the path itself.
    pub fn add_path(&mut self, path: &str) -> (id: u32)
        requires
            old(self).wf(),
            old(self).path.names().len() + path.spec_bytes().len() < u32::MAX,
        ensures
            final(self).wf(),
            final(self).path.names() == old(self).path.names() + missing_chain(
                old(self).path.names(),
                normalize(path.spec_bytes()),
            ),
            final(self).path.lookup(normalize(path.spec_bytes())) == Some(id),
            final(self).ip == old(self).ip,
            final(self).http_version == old(self).http_version,
            final(self).method == old(self).method,
            final(self).domain == old(self).domain,
            final(self).referer == old(self).referer,
            final(self).user_agent == old(self).user_agent,
            final(self).content_type == old(self).content_type,
            final(self).compression_type == old(self).compression_type,
    {
        let bytes = path.as_bytes();
        let ghost names0 = self.path.names();
        let end = trimmed_len(bytes, bytes.len());
        let ghost p = normalize(bytes@);
        proof {
            assert(bytes@.subrange(0, bytes@.len() as int) =~= bytes@);
            lemma_normalize(bytes@);
        }
        // the paths that are missing, from the path itself up to the
        // outermost missing directory, each by its length
        let mut cuts: Vec<usize> = Vec::new();
        let mut cur: usize = end;
        let mut walking = true;
        proof {
            assert(missing_chain(names0, p) + walked(bytes@, cuts@) =~= missing_chain(names0, p));
        }
        while walking
            invariant
                *self == *old(self),
                names0 == self.path.names(),
                self.wf(),
                bytes@ == path.spec_bytes(),
                cur <= end <= bytes@.len(),
                p == bytes@.subrange(0, end as int),
                cur == bytes@.len() || bytes@[cur as int] == SLASH,
                normalize(bytes@.subrange(0, cur as int)) == bytes@.subrange(0, cur as int),
                forall|i: int|
                    0 <= i < cuts@.len() ==> cur <= #[trigger] cuts@[i] <= end && (cuts@[i]
                        == bytes@.len() || bytes@[cuts@[i] as int] == SLASH),
                missing_chain(names0, p) == (if walking {
                    missing_chain(names0, bytes@.subrange(0, cur as int))
                } else {
                    Seq::<Seq<u8>>::empty()
                }) + walked(bytes@, cuts@),
            decreases
                    (if walking {
                        1int
                    } else {
                        0int
                    }),
                    cur,
        {
            let text = slice_str(path, 0, cur);
            let ghost here = bytes@.subrange(0, cur as int);
            let ghost before = cuts@;
            match self.path.get(text) {
                Some(_) => {
                    walking = false;
                },
                None => {
                    cuts.push(cur);
                    proof {
                        assert(walked(bytes@, cuts@) =~= seq![here] + walked(bytes@, before));
                    }
                    let above = match rfind_byte(text.as_bytes(), SLASH) {
                        Some(last) => last,
                        None => 0,
                    };
                    if above > 0 {
                        proof {
                            lemma_last_index_of(here, SLASH);
                            assert(here.subrange(0, above as int) =~= bytes@.subrange(
                                0,
                                above as int,
                            ));
                            lemma_normalize(bytes@.subrange(0, above as int));
                        }
                        let next = trimmed_len(bytes, above);
                        proof {
                            let up = bytes@.subrange(0, next as int);
                            assert(up == parent(here));
                            assert(missing_chain(names0, here) =~= missing_chain(names0, up).push(
                                here,
                            ));
                            assert(missing_chain(names0, up).push(here) + walked(bytes@, before)
                                =~= missing_chain(names0, up) + walked(bytes@, cuts@));
                        }
                        cur = next;
                    } else {
                        proof {
                            assert(!has_parent(here));
                            assert(missing_chain(names0, here) =~= seq![here]);
                            assert(Seq::<Seq<u8>>::empty() + walked(bytes@, cuts@) =~= seq![here]
                                + walked(bytes@, before));
                        }
                        walking = false;
                    }
                },
            }
        }
        let ghost chain = missing_chain(names0, p);
        let ghost all_cuts = cuts@;
        proof {
            assert(chain =~= walked(bytes@, all_cuts));
            lemma_missing_chain(names0, p);
        }
        let mut done: usize = 0;
        proof {
            assert(names0 + chain.subrange(0, 0) =~= names0);
        }
        while cuts.len() > 0
            invariant
                bytes@ == path.spec_bytes(),
                names0 == old(self).path.names(),
                names0.len() + bytes@.len() < u32::MAX,
                chain == missing_chain(names0, p),
                chain == walked(bytes@, all_cuts),
                chain.len() <= p.len() + 1,
                p.len() <= bytes@.len(),
                (names0 + chain).no_duplicates(),
                done + cuts@.len() == all_cuts.len(),
                cuts@ == all_cuts.subrange(0, cuts@.len() as int),
                forall|i: int|
                    0 <= i < all_cuts.len() ==> #[trigger] all_cuts[i] <= bytes@.len() && (
                    all_cuts[i] == bytes@.len() || bytes@[all_cuts[i] as int] == SLASH),
                self.path.wf(),
                self.path.is_positional(),
                self.path.names() == names0 + chain.subrange(0, done as int),
                self.ip == old(self).ip,
                self.http_version == old(self).http_version,
                self.method == old(self).method,
                self.domain == old(self).domain,
                self.referer == old(self).referer,
                self.user_agent == old(self).user_agent,
                self.content_type == old(self).content_type,
                self.compression_type == old(self).compression_type,
            decreases cuts@.len(),
        {
            let ghost so_far = self.path.names();
            let ghost left = cuts@.len();
            let cut = match cuts.pop() {
                Some(c) => c,
                None => 0,
            };
            proof {
                assert(cut == all_cuts[left - 1]);
                assert(chain[done as int] == bytes@.subrange(0, cut as int));
            }
            let text = slice_str(path, 0, cut);
            proof {
                let whole = names0 + chain;
                assert(whole[names0.len() + done] == text.spec_bytes());
                if so_far.contains(text.spec_bytes()) {
                    let i = choose|i: int| 0 <= i < so_far.len() && so_far[i] == text.spec_bytes();
                    assert(whole[i] == so_far[i]);
                }
            }
            self.path.intern(text);
            proof {
                assert(self.path.names() =~= names0 + chain.subrange(0, done + 1));
            }
            done += 1;
        }
        proof {
            assert(chain.subrange(0, chain.len() as int) =~= chain);
            let names2 = self.path.names();
            assert forall|b: Seq<u8>| names0.contains(b) implies names2.contains(b) by {
                let i = choose|i: int| 0 <= i < names0.len() && names0[i] == b;
                assert(names2[i] == b);
            }
        }
        let normalized = slice_str(path, 0, end);
        match self.path.get(normalized) {
            Some(id) => id,
            None => 0,
        }
    }
}


/// The path hierarchy is closed: every path of a valid table that has a
/// slash has its directory in the table too. The directory of a path is
/// what stands before its last slash, without trailing slashes. A path
/// whose only slash is its first byte has the empty path as its directory,
/// and that is in the table only once it has been entered: for such a path
/// the law holds of the tables that hold the empty path.
pub proof fn law_paths_closed(table: GlobalTable, p: Seq<u8>)
    requires
        table.wf(),
        table.path.names().contains(p),
        last_index_of(p, SLASH) >= 0,
        has_parent(p) || table.path.names().contains(Seq::<u8>::empty()),
    ensures
        table.path.names().contains(parent(p)),
        table.path.lookup(parent(p)) is Some,
{
    if has_parent(p) {
        let i = choose|i: int| 0 <= i < table.path.names().len() && table.path.names()[i] == p;
        assert(has_parent(table.path.names()[i]));
    } else {
        assert(p.subrange(0, 0) =~= Seq::<u8>::empty());
        assert(normalize(Seq::<u8>::empty()) == Seq::<u8>::empty());
    }
}

} // verus!
