use vstd::prelude::*;
use vstd::string::StrSliceExecFns;

verus! {

/// Reserved separator that joins a document id and a chunk id into a single
/// sortable chunk key. U+241F (the symbol for unit separator) lies outside
/// the character set of ordinary identifiers, so ordinary `-`/`_`/alnum ids
/// never contain it. Ids that do contain it are out of contract and split
/// incorrectly; this is a known, accepted limitation.
pub const KEY_SEPARATOR: char = '\u{241F}';

/// The chunk key composed from a document id and a chunk id.
pub open spec fn key_of(doc_id: Seq<char>, chunk_id: Seq<char>) -> Seq<char> {
    doc_id + seq![KEY_SEPARATOR] + chunk_id
}

/// Whether a sequence of characters contains the reserved separator.
pub open spec fn has_separator(s: Seq<char>) -> bool {
    exists|i: int| 0 <= i < s.len() && s[i] == KEY_SEPARATOR
}

/// Splitting a key at the first separator: the document id is everything
/// before it, the chunk id everything after it. A key without a separator
/// splits into the whole key and an empty chunk id.
pub open spec fn split_key_spec(key: Seq<char>) -> (Seq<char>, Seq<char>)
    decreases key.len(),
{
    if key.len() == 0 {
        (key, Seq::empty())
    } else if key[0] == KEY_SEPARATOR {
        (Seq::empty(), key.drop_first())
    } else {
        let (doc, chunk) = split_key_spec(key.drop_first());
        (seq![key[0]] + doc, chunk)
    }
}

/// The document part of a split never contains the separator.
pub proof fn lemma_split_doc_separator_free(key: Seq<char>)
    ensures
        !has_separator(split_key_spec(key).0),
    decreases key.len(),
{
    if key.len() == 0 {
    } else if key[0] == KEY_SEPARATOR {
        assert(!has_separator(Seq::<char>::empty()));
    } else {
        lemma_split_doc_separator_free(key.drop_first());
        let (doc, _) = split_key_spec(key.drop_first());
        let joined = seq![key[0]] + doc;
        assert forall|i: int| 0 <= i < joined.len() implies joined[i] != KEY_SEPARATOR by {
            if i == 0 {
            } else {
                assert(joined[i] == doc[i - 1]);
            }
        }
    }
}

/// Splitting a composed key recovers the original pair, provided the
/// document id is free of the separator.
pub proof fn lemma_split_of_key_of(doc_id: Seq<char>, chunk_id: Seq<char>)
    requires
        !has_separator(doc_id),
    ensures
        split_key_spec(key_of(doc_id, chunk_id)) == (doc_id, chunk_id),
    decreases doc_id.len(),
{
    let key = key_of(doc_id, chunk_id);
    if doc_id.len() == 0 {
        assert(key[0] == KEY_SEPARATOR);
        assert(key.drop_first() =~= chunk_id);
        assert(split_key_spec(key).0 =~= doc_id);
    } else {
        assert(key[0] == doc_id[0]);
        assert(key[0] != KEY_SEPARATOR) by {
            assert(doc_id[0] != KEY_SEPARATOR);
        }
        assert(key.drop_first() =~= key_of(doc_id.drop_first(), chunk_id));
        assert(!has_separator(doc_id.drop_first())) by {
            assert(forall|i: int|
                0 <= i < doc_id.drop_first().len() ==> doc_id.drop_first()[i] == doc_id[i + 1]);
        }
        lemma_split_of_key_of(doc_id.drop_first(), chunk_id);
        let (d, c) = split_key_spec(key.drop_first());
        assert(d == doc_id.drop_first() && c == chunk_id);
        assert(seq![key[0]] + d =~= doc_id);
    }
}

/// Re-composing a split key gives the key back, provided the key contains
/// the separator at all.
pub proof fn lemma_key_of_split(key: Seq<char>)
    requires
        has_separator(key),
    ensures
        key_of(split_key_spec(key).0, split_key_spec(key).1) == key,
    decreases key.len(),
{
    if key[0] == KEY_SEPARATOR {
        let (doc, chunk) = split_key_spec(key);
        assert(doc =~= Seq::<char>::empty());
        assert(key_of(doc, chunk) =~= key);
    } else {
        let i = choose|i: int| 0 <= i < key.len() && key[i] == KEY_SEPARATOR;
        assert(key.drop_first()[i - 1] == KEY_SEPARATOR);
        assert(has_separator(key.drop_first()));
        lemma_key_of_split(key.drop_first());
        let (d, c) = split_key_spec(key.drop_first());
        assert(split_key_spec(key) == (seq![key[0]] + d, c));
        assert(key_of(seq![key[0]] + d, c) =~= seq![key[0]] + key_of(d, c));
        assert(seq![key[0]] + key.drop_first() =~= key);
    }
}

/// A composed key always contains the separator.
pub proof fn lemma_key_of_has_separator(doc_id: Seq<char>, chunk_id: Seq<char>)
    ensures
        has_separator(key_of(doc_id, chunk_id)),
{
    let key = key_of(doc_id, chunk_id);
    assert(key[doc_id.len() as int] == KEY_SEPARATOR);
}

/// Whether `p` is a prefix of `s`.
pub open spec fn is_seq_prefix(p: Seq<char>, s: Seq<char>) -> bool {
    p.len() <= s.len() && s.take(p.len() as int) == p
}

/// The prefix shared by all chunk keys built from a document id.
pub open spec fn doc_prefix(doc_id: Seq<char>) -> Seq<char> {
    doc_id + seq![KEY_SEPARATOR]
}

/// Decide whether a chunk key was built from `doc_id`, that is, whether it
/// starts with the document id followed by the separator.
pub fn key_matches_doc(key: &str, doc_id: &str) -> (r: bool)
    ensures
        r == is_seq_prefix(doc_prefix(doc_id@), key@),
{
    let klen = key.unicode_len();
    let dlen = doc_id.unicode_len();
    if klen <= dlen {
        return false;
    }
    let mut j: usize = 0;
    while j < dlen
        invariant
            j <= dlen,
            dlen < klen,
            klen == key@.len(),
            dlen == doc_id@.len(),
            forall|t: int| 0 <= t < j ==> key@[t] == doc_id@[t],
        decreases dlen - j,
    {
        if key.get_char(j) != doc_id.get_char(j) {
            proof {
                assert(key@.take(dlen + 1)[j as int] != doc_prefix(doc_id@)[j as int]);
            }
            return false;
        }
        j = j + 1;
    }
    let sep_ok = key.get_char(dlen) == '\u{241F}';
    proof {
        if sep_ok {
            assert(key@.take(dlen + 1) =~= doc_prefix(doc_id@));
        } else {
            assert(key@.take(dlen + 1)[dlen as int] != doc_prefix(doc_id@)[dlen as int]);
        }
    }
    sep_ok
}

/// Compose the single sortable chunk key for a chunk of a document.
pub fn make_chunk_key(doc_id: &str, chunk_id: &str) -> (key: String)
    ensures
        key@ == key_of(doc_id@, chunk_id@),
{
    let mut key = doc_id.to_owned();
    vstd::string::StringExecFns::append(&mut key, "\u{241F}");
    vstd::string::StringExecFns::append(&mut key, chunk_id);
    proof {
        reveal_strlit("\u{241F}");
        assert("\u{241F}"@ =~= seq![KEY_SEPARATOR]);
        assert(key@ =~= key_of(doc_id@, chunk_id@));
    }
    key
}

/// Index of the first separator in `key`, if any.
fn find_separator(key: &str) -> (r: Option<usize>)
    ensures
        match r {
            Some(i) => {
                &&& i < key@.len()
                &&& key@[i as int] == KEY_SEPARATOR
                &&& forall|j: int| 0 <= j < i ==> key@[j] != KEY_SEPARATOR
            },
            None => !has_separator(key@),
        },
{
    let len = key.unicode_len();
    let mut i: usize = 0;
    while i < len
        invariant
            i <= len,
            len == key@.len(),
            forall|j: int| 0 <= j < i ==> key@[j] != KEY_SEPARATOR,
        decreases len - i,
    {
        if key.get_char(i) == '\u{241F}' {
            return Some(i);
        }
        i = i + 1;
    }
    None
}

/// Relates the first-separator position to the recursive split.
pub proof fn lemma_split_at_first(key: Seq<char>, i: int)
    requires
        0 <= i < key.len(),
        key[i] == KEY_SEPARATOR,
        forall|j: int| 0 <= j < i ==> key[j] != KEY_SEPARATOR,
    ensures
        split_key_spec(key) == (key.take(i), key.skip(i + 1)),
    decreases i,
{
    if i == 0 {
        assert(key.take(0) =~= Seq::<char>::empty());
        assert(key.skip(1) =~= key.drop_first());
    } else {
        let rest = key.drop_first();
        assert(rest[i - 1] == KEY_SEPARATOR);
        assert(forall|j: int| 0 <= j < i - 1 ==> rest[j] == key[j + 1] && rest[j] != KEY_SEPARATOR);
        lemma_split_at_first(rest, i - 1);
        let (d, c) = split_key_spec(rest);
        assert(seq![key[0]] + d =~= key.take(i));
        assert(c =~= key.skip(i + 1)) by {
            assert(rest.skip(i) =~= key.skip(i + 1));
        }
    }
}

/// A key without a separator splits into itself and an empty chunk id.
proof fn lemma_split_no_separator(key: Seq<char>)
    requires
        !has_separator(key),
    ensures
        split_key_spec(key) == (key, Seq::<char>::empty()),
    decreases key.len(),
{
    if key.len() == 0 {
    } else {
        assert(key[0] != KEY_SEPARATOR);
        assert(!has_separator(key.drop_first())) by {
            assert(forall|j: int|
                0 <= j < key.drop_first().len() ==> key.drop_first()[j] == key[j + 1]);
        }
        lemma_split_no_separator(key.drop_first());
        assert(seq![key[0]] + key.drop_first() =~= key);
    }
}

/// Split a chunk key at the first separator into its document id and chunk
/// id. A key without a separator yields the whole key and an empty chunk id.
pub fn split_chunk_key(key: &str) -> (parts: (String, String))
    ensures
        (parts.0@, parts.1@) == split_key_spec(key@),
{
    let len = key.unicode_len();
    match find_separator(key) {
        Some(i) => {
            let doc = key.substring_char(0, i).to_owned();
            let chunk = key.substring_char(i + 1, len).to_owned();
            proof {
                lemma_split_at_first(key@, i as int);
                assert(key@.subrange(0, i as int) =~= key@.take(i as int));
                assert(key@.subrange(i + 1, len as int) =~= key@.skip(i + 1));
            }
            (doc, chunk)
        },
        None => {
            proof {
                lemma_split_no_separator(key@);
            }
            (key.to_owned(), String::new())
        },
    }
}

}
