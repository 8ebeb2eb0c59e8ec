//! What the store asks of GPG and reads back from it: the public keys it
//! lists, the recipients chosen among them, and the arguments of the `gpg`
//! invocations that encrypt and decrypt keys.
use vstd::prelude::*;

use crate::number::{
    decimal, lemma_decimal_digits, lemma_parse_decimal, parse_unsigned, parse_usize,
    render_decimal, NumberError,
};
use crate::text::{
    fields, fields_of, free_of, free_of_whitespace, is_whitespace, join_fields, join_lines,
    join_with, lemma_fields_of_join, lemma_join_lines_push, lemma_lines_of_join,
    lemma_trimmed_unchanged, lemma_words_of_join, lines, lines_of, pad_left, pad_left_text,
    same_text, strip_cr, trim, trimmed, views, words, words_of,
};

verus! {

/// A listing of keys that does not have the columns it should.
#[derive(Debug, Clone, Copy, PartialEq, Eq, Structural)]
pub enum ListingError {
    /// A `pub` record without a key id, or a `uid` record without a user id.
    MissingColumn,
}

/// A key id paired with its user id, as views.
pub open spec fn entry_views(v: Seq<(String, String)>) -> Seq<(Seq<char>, Seq<char>)> {
    v.map_values(|p: (String, String)| (p.0@, p.1@))
}

pub open spec fn pub_tag() -> Seq<char> {
    seq!['p', 'u', 'b']
}

pub open spec fn uid_tag() -> Seq<char> {
    seq!['u', 'i', 'd']
}

/// An entry put in front of the entries that the rest of a listing gives.
pub open spec fn prepend_entry(
    e: (Seq<char>, Seq<char>),
    r: Result<Seq<(Seq<char>, Seq<char>)>, ()>,
) -> Result<Seq<(Seq<char>, Seq<char>)>, ()> {
    match r {
        Ok(v) => Ok(seq![e] + v),
        Err(u) => Err(u),
    }
}

/// Entries already read put in front of what the rest of a listing gives.
pub open spec fn after_entries(
    acc: Seq<(Seq<char>, Seq<char>)>,
    r: Result<Seq<(Seq<char>, Seq<char>)>, ()>,
) -> Result<Seq<(Seq<char>, Seq<char>)>, ()> {
    match r {
        Ok(v) => Ok(acc + v),
        Err(u) => Err(u),
    }
}

/// The keys that the records of `gpg --list-keys --with-colons` name, with
/// `pending` the key id of a `pub` record that no `uid` record has followed
/// yet: a `pub` record gives its fifth column as the pending key id, a `uid`
/// record pairs the pending key id with its tenth column, other records are
/// skipped; a missing column makes the listing invalid.
pub open spec fn listing_from(lines: Seq<Seq<char>>, pending: Option<Seq<char>>) -> Result<
    Seq<(Seq<char>, Seq<char>)>,
    (),
>
    decreases lines.len(),
{
    if lines.len() == 0 {
        Ok(seq![])
    } else {
        let fs = fields_of(lines[0], ':');
        let rest = lines.drop_first();
        if fs[0] == pub_tag() {
            if fs.len() > 4 {
                listing_from(rest, Some(fs[4]))
            } else {
                Err(())
            }
        } else if fs[0] == uid_tag() {
            match pending {
                None => listing_from(rest, None),
                Some(k) => if fs.len() > 9 {
                    prepend_entry((k, fs[9]), listing_from(rest, None))
                } else {
                    Err(())
                },
            }
        } else {
            listing_from(rest, pending)
        }
    }
}

/// The keys that a whole listing names.
pub open spec fn key_listing(output: Seq<char>) -> Result<Seq<(Seq<char>, Seq<char>)>, ()> {
    listing_from(lines_of(output), None)
}

pub open spec fn option_view(o: Option<String>) -> Option<Seq<char>> {
    match o {
        Some(s) => Some(s@),
        None => None,
    }
}

proof fn lemma_fields_nonempty(s: Seq<char>, sep: char, cur: Seq<char>)
    ensures
        crate::text::fields_from(s, sep, cur).len() >= 1,
    decreases s.len(),
{
    if s.len() > 0 {
        lemma_fields_nonempty(s.drop_first(), sep, if s[0] == sep {
            seq![]
        } else {
            cur.push(s[0])
        });
    }
}

/// The key ids and user ids that `gpg --list-keys --with-colons` printed.
pub fn list_keys(output: &str) -> (r: Result<Vec<(String, String)>, ListingError>)
    ensures
        match r {
            Ok(v) => key_listing(output@) == Ok::<_, ()>(entry_views(v@)),
            Err(_) => key_listing(output@) is Err,
        },
{
    proof {
        reveal_strlit("pub");
        reveal_strlit("uid");
        assert("pub"@ =~= pub_tag());
        assert("uid"@ =~= uid_tag());
    }
    let ls = lines(output);
    let mut keys: Vec<(String, String)> = Vec::new();
    let mut pending: Option<String> = None;
    let mut i: usize = 0;
    let ghost all = views(ls@);
    assert(all.skip(0) =~= all);
    assert(entry_views(keys@) =~= Seq::<(Seq<char>, Seq<char>)>::empty());
    while i < ls.len()
        invariant
            i <= ls@.len(),
            all == views(ls@),
            all == lines_of(output@),
            "pub"@ == pub_tag(),
            "uid"@ == uid_tag(),
            key_listing(output@) == after_entries(
                entry_views(keys@),
                listing_from(all.skip(i as int), option_view(pending)),
            ),
        decreases ls@.len() - i,
    {
        let ghost line = all[i as int];
        assert(all.skip(i as int)[0] == line);
        assert(all.skip(i as int).drop_first() =~= all.skip(i + 1));
        let fs = fields(ls[i].as_str(), ':');
        proof {
            lemma_fields_nonempty(line, ':', seq![]);
        }
        assert(views(fs@)[0] == fs@[0]@);
        if same_text(fs[0].as_str(), "pub") {
            if fs.len() > 4 {
                assert(views(fs@)[4] == fs@[4]@);
                pending = Some(fs[4].clone());
            } else {
                return Err(ListingError::MissingColumn);
            }
        } else if same_text(fs[0].as_str(), "uid") {
            match pending {
                None => {},
                Some(key) => {
                    if fs.len() > 9 {
                        assert(views(fs@)[9] == fs@[9]@);
                        let ghost e = (key@, fs@[9]@);
                        let user = fs[9].clone();
                        let ghost before = entry_views(keys@);
                        keys.push((key, user));
                        assert(entry_views(keys@) =~= before.push(e));
                        pending = None;
                        let ghost tail = listing_from(all.skip(i + 1), None);
                        assert(after_entries(before, prepend_entry(e, tail)) == after_entries(
                            before.push(e),
                            tail,
                        )) by {
                            if let Ok(v) = tail {
                                assert(before + (seq![e] + v) =~= before.push(e) + v);
                            }
                        }
                    } else {
                        return Err(ListingError::MissingColumn);
                    }
                },
            }
        }
        i = i + 1;
    }
    assert(all.skip(i as int) =~= Seq::<Seq<char>>::empty());
    assert(entry_views(keys@) + Seq::<(Seq<char>, Seq<char>)>::empty() =~= entry_views(keys@));
    Ok(keys)
}

/// A column of the listing that the parser can read back: it holds no
/// column separator and no line break.
pub open spec fn plain_column(s: Seq<char>) -> bool {
    free_of(s, ':') && free_of(s, '\n') && free_of(s, '\r')
}

/// The `pub` record of a key id (the key id in the fifth column).
pub open spec fn pub_record(key: Seq<char>) -> Seq<char> {
    join_fields(seq![pub_tag(), seq![], seq![], seq![], key], ':')
}

/// The `uid` record of a user id (the user id in the tenth column).
pub open spec fn uid_record(user: Seq<char>) -> Seq<char> {
    join_fields(
        seq![uid_tag(), seq![], seq![], seq![], seq![], seq![], seq![], seq![], seq![], user],
        ':',
    )
}

/// The records that list keys, a `pub` record and a `uid` record for each.
pub open spec fn listing_records(keys: Seq<(Seq<char>, Seq<char>)>) -> Seq<Seq<char>>
    decreases keys.len(),
{
    if keys.len() == 0 {
        seq![]
    } else {
        seq![pub_record(keys[0].0), uid_record(keys[0].1)] + listing_records(keys.drop_first())
    }
}

proof fn lemma_join_fields_free(fs: Seq<Seq<char>>, sep: char, c: char)
    requires
        sep != c,
        forall|i: int| 0 <= i < fs.len() ==> free_of(#[trigger] fs[i], c),
    ensures
        free_of(join_fields(fs, sep), c),
    decreases fs.len(),
{
    if fs.len() > 1 {
        let rest = fs.drop_first();
        assert forall|i: int| 0 <= i < rest.len() implies free_of(#[trigger] rest[i], c) by {
            assert(rest[i] == fs[i + 1]);
        }
        lemma_join_fields_free(rest, sep, c);
        assert(free_of(fs[0], c));
        let j = fs[0] + seq![sep] + join_fields(rest, sep);
        assert forall|k: int| 0 <= k < j.len() implies j[k] != c by {
            if k < fs[0].len() {
                assert(j[k] == fs[0][k]);
            } else if k > fs[0].len() {
                assert(j[k] == join_fields(rest, sep)[k - fs[0].len() - 1]);
            }
        }
    } else if fs.len() == 1 {
        assert(free_of(fs[0], c));
    }
}

proof fn lemma_record_fields(fs: Seq<Seq<char>>)
    requires
        fs.len() >= 1,
        forall|i: int| 0 <= i < fs.len() ==> plain_column(#[trigger] fs[i]),
    ensures
        fields_of(join_fields(fs, ':'), ':') == fs,
        free_of(join_fields(fs, ':'), '\n'),
        strip_cr(join_fields(fs, ':')) == join_fields(fs, ':'),
{
    assert forall|i: int| 0 <= i < fs.len() implies free_of(#[trigger] fs[i], ':') by {
        assert(plain_column(fs[i]));
    }
    assert forall|i: int| 0 <= i < fs.len() implies free_of(#[trigger] fs[i], '\n') by {
        assert(plain_column(fs[i]));
    }
    assert forall|i: int| 0 <= i < fs.len() implies free_of(#[trigger] fs[i], '\r') by {
        assert(plain_column(fs[i]));
    }
    lemma_fields_of_join(fs, ':');
    lemma_join_fields_free(fs, ':', '\n');
    lemma_join_fields_free(fs, ':', '\r');
    let j = join_fields(fs, ':');
    if j.len() > 0 {
        assert(j[j.len() - 1] != '\r');
    }
}

proof fn lemma_records_of(key: Seq<char>, user: Seq<char>)
    requires
        plain_column(key),
        plain_column(user),
    ensures
        fields_of(pub_record(key), ':') == seq![pub_tag(), seq![], seq![], seq![], key],
        fields_of(uid_record(user), ':') == seq![
            uid_tag(),
            seq![],
            seq![],
            seq![],
            seq![],
            seq![],
            seq![],
            seq![],
            seq![],
            user,
        ],
        free_of(pub_record(key), '\n'),
        free_of(uid_record(user), '\n'),
        strip_cr(pub_record(key)) == pub_record(key),
        strip_cr(uid_record(user)) == uid_record(user),
{
    let e: Seq<char> = seq![];
    let p = seq![pub_tag(), e, e, e, key];
    let u = seq![uid_tag(), e, e, e, e, e, e, e, e, user];
    assert(plain_column(pub_tag()));
    assert(plain_column(uid_tag()));
    assert(plain_column(e));
    assert forall|i: int| 0 <= i < p.len() implies plain_column(#[trigger] p[i]) by {
        if i == 0 {
            assert(p[i] == pub_tag());
        } else if i < 4 {
            assert(p[i] == e);
        } else {
            assert(p[i] == key);
        }
    }
    assert forall|i: int| 0 <= i < u.len() implies plain_column(#[trigger] u[i]) by {
        if i == 0 {
            assert(u[i] == uid_tag());
        } else if i < 9 {
            assert(u[i] == e);
        } else {
            assert(u[i] == user);
        }
    }
    lemma_record_fields(p);
    lemma_record_fields(u);
}

proof fn lemma_listing_records(keys: Seq<(Seq<char>, Seq<char>)>)
    requires
        forall|i: int|
            0 <= i < keys.len() ==> plain_column(#[trigger] keys[i].0) && plain_column(keys[i].1),
    ensures
        listing_from(listing_records(keys), None) == Ok::<_, ()>(keys),
        forall|i: int|
            0 <= i < listing_records(keys).len() ==> free_of(
                #[trigger] listing_records(keys)[i],
                '\n',
            ) && strip_cr(listing_records(keys)[i]) == listing_records(keys)[i],
    decreases keys.len(),
{
    if keys.len() == 0 {
        assert(keys =~= Seq::<(Seq<char>, Seq<char>)>::empty());
    } else {
        let rest = keys.drop_first();
        assert forall|i: int| 0 <= i < rest.len() implies plain_column(#[trigger] rest[i].0)
            && plain_column(rest[i].1) by {
            assert(rest[i] == keys[i + 1]);
        }
        lemma_listing_records(rest);
        assert(plain_column(keys[0].0) && plain_column(keys[0].1));
        lemma_records_of(keys[0].0, keys[0].1);
        let recs = listing_records(keys);
        let tail = listing_records(rest);
        assert(recs[0] == pub_record(keys[0].0));
        assert(recs.drop_first()[0] == uid_record(keys[0].1));
        assert(recs.drop_first().drop_first() =~= tail);
        assert(uid_tag() != pub_tag()) by {
            assert(uid_tag()[0] != pub_tag()[0]);
        }
        assert(seq![keys[0]] + rest =~= keys);
        let fp = fields_of(recs[0], ':');
        assert(fp[0] == pub_tag());
        assert(fp[4] == keys[0].0);
        assert(listing_from(recs, None) == listing_from(recs.drop_first(), Some(keys[0].0)));
        let fu = fields_of(recs.drop_first()[0], ':');
        assert(fu[0] == uid_tag());
        assert(fu[9] == keys[0].1);
        assert(listing_from(recs.drop_first(), Some(keys[0].0)) == prepend_entry(
            (keys[0].0, keys[0].1),
            listing_from(tail, None),
        ));
        assert(seq![(keys[0].0, keys[0].1)] + rest =~= keys);
        assert forall|i: int| 0 <= i < recs.len() implies free_of(#[trigger] recs[i], '\n')
            && strip_cr(recs[i]) == recs[i] by {
            if i >= 2 {
                assert(recs[i] == tail[i - 2]);
            }
        }
    }
}

/// A listing printed for keys whose ids hold no `:` and no line break reads
/// back as exactly those keys, in order.
pub proof fn lemma_key_listing_round_trip(keys: Seq<(Seq<char>, Seq<char>)>)
    requires
        forall|i: int|
            0 <= i < keys.len() ==> plain_column(#[trigger] keys[i].0) && plain_column(keys[i].1),
    ensures
        key_listing(join_lines(listing_records(keys))) == Ok::<_, ()>(keys),
{
    lemma_listing_records(keys);
    let recs = listing_records(keys);
    lemma_lines_of_join(recs);
    assert(recs.map_values(|l: Seq<char>| strip_cr(l)) =~= recs);
}

} // verus!

verus! {

/// Why an answer to the recipients prompt was not taken.
#[derive(Debug, Clone, Copy, PartialEq, Eq, Structural)]
pub enum SelectionProblem {
    /// The word is not an unsigned integer.
    NotANumber(NumberError),
    /// The number names no row that can be chosen.
    OutOfRange,
}

/// The first word of an answer that was not taken, and why.
#[derive(Debug)]
pub struct SelectionError {
    pub word: String,
    pub problem: SelectionProblem,
}

/// The key indices that the words of an answer choose among `key_count`
/// listed keys: each word is a row number `n` with `1 <= n < key_count`,
/// choosing index `n - 1`; the first word that is no such number refuses the
/// whole answer.
pub open spec fn selection_from(words: Seq<Seq<char>>, key_count: nat) -> Result<
    Seq<nat>,
    (Seq<char>, SelectionProblem),
>
    decreases words.len(),
{
    if words.len() == 0 {
        Ok(seq![])
    } else {
        match parse_unsigned(words[0], usize::MAX as nat) {
            Err(e) => Err((words[0], SelectionProblem::NotANumber(e))),
            Ok(n) => if n == 0 || n >= key_count {
                Err((words[0], SelectionProblem::OutOfRange))
            } else {
                match selection_from(words.drop_first(), key_count) {
                    Ok(v) => Ok(seq![(n - 1) as nat] + v),
                    Err(x) => Err(x),
                }
            },
        }
    }
}

/// The key indices that an answer chooses.
pub open spec fn selection(answer: Seq<char>, key_count: nat) -> Result<
    Seq<nat>,
    (Seq<char>, SelectionProblem),
> {
    selection_from(words_of(trimmed(answer)), key_count)
}

pub open spec fn index_views(v: Seq<usize>) -> Seq<nat> {
    v.map_values(|i: usize| i as nat)
}

/// The key indices that an answer to the recipients prompt chooses among
/// `key_count` listed keys, or the first word that chooses none.
pub fn parse_selection(answer: &str, key_count: usize) -> (r: Result<Vec<usize>, SelectionError>)
    ensures
        match r {
            Ok(v) => selection(answer@, key_count as nat) == Ok::<_, (Seq<char>, SelectionProblem)>(
                index_views(v@),
            ),
            Err(e) => selection(answer@, key_count as nat) == Err::<Seq<nat>, _>(
                (e.word@, e.problem),
            ),
        },
        r matches Ok(v) ==> forall|i: int| 0 <= i < v@.len() ==> #[trigger] v@[i] + 1 < key_count,
        r matches Ok(v) ==> v@.len() == words_of(trimmed(answer@)).len(),
        r matches Ok(v) ==> forall|i: int|
            0 <= i < v@.len() ==> parse_unsigned(
                #[trigger] words_of(trimmed(answer@))[i],
                usize::MAX as nat,
            ) == Ok::<nat, NumberError>((v@[i] + 1) as nat),
        (exists|i: int|
            0 <= i < words_of(trimmed(answer@)).len() && numbers_no_row(
                #[trigger] words_of(trimmed(answer@))[i],
                key_count as nat,
            )) ==> r is Err,
{
    proof {
        lemma_selection_takes_every_word(words_of(trimmed(answer@)), key_count as nat);
    }
    let t = trim(answer);
    let ws = words(t.as_str());
    let ghost all = views(ws@);
    let mut chosen: Vec<usize> = Vec::new();
    let mut i: usize = 0;
    assert(all.skip(0) =~= all);
    assert(index_views(chosen@) =~= Seq::<nat>::empty());
    while i < ws.len()
        invariant
            i <= ws@.len(),
            all == views(ws@),
            all == words_of(trimmed(answer@)),
            forall|j: int| 0 <= j < chosen@.len() ==> #[trigger] chosen@[j] + 1 < key_count,
            selection(answer@, key_count as nat) == match selection_from(
                all.skip(i as int),
                key_count as nat,
            ) {
                Ok(v) => Ok(index_views(chosen@) + v),
                Err(x) => Err(x),
            },
        decreases ws@.len() - i,
    {
        assert(all.skip(i as int)[0] == ws@[i as int]@);
        assert(all.skip(i as int).drop_first() =~= all.skip(i + 1));
        match parse_usize(ws[i].as_str()) {
            Err(e) => {
                return Err(SelectionError { word: ws[i].clone(), problem: SelectionProblem::NotANumber(e) });
            },
            Ok(n) => {
                if n == 0 || n >= key_count {
                    return Err(SelectionError { word: ws[i].clone(), problem: SelectionProblem::OutOfRange });
                }
                let ghost before = index_views(chosen@);
                chosen.push(n - 1);
                assert(index_views(chosen@) =~= before.push((n - 1) as nat));
                proof {
                    let tail = selection_from(all.skip(i + 1), key_count as nat);
                    if let Ok(v) = tail {
                        assert(before + (seq![(n - 1) as nat] + v) =~= before.push((n - 1) as nat)
                            + v);
                    }
                }
            },
        }
        i = i + 1;
    }
    assert(all.skip(i as int) =~= Seq::<Seq<char>>::empty());
    assert(index_views(chosen@) + Seq::<nat>::empty() =~= index_views(chosen@));
    Ok(chosen)
}

/// A word that is a number but numbers no listed row: 0, or `key_count`
/// or more.
pub open spec fn numbers_no_row(word: Seq<char>, key_count: nat) -> bool {
    match parse_unsigned(word, usize::MAX as nat) {
        Ok(n) => n == 0 || n >= key_count,
        Err(_) => false,
    }
}

/// An accepted answer chooses one row per word, in order: for each word the
/// row it numbers (the number less one), which is a listed row; and a word
/// that numbers no listed row makes the answer refused.
pub proof fn lemma_selection_takes_every_word(words: Seq<Seq<char>>, key_count: nat)
    ensures
        selection_from(words, key_count) matches Ok(v) ==> v.len() == words.len(),
        selection_from(words, key_count) matches Ok(v) ==> forall|i: int|
            0 <= i < words.len() ==> parse_unsigned(#[trigger] words[i], usize::MAX as nat)
                == Ok::<nat, NumberError>(v[i] + 1) && v[i] + 1 < key_count,
        (exists|i: int| 0 <= i < words.len() && numbers_no_row(#[trigger] words[i], key_count))
            ==> selection_from(words, key_count) is Err,
    decreases words.len(),
{
    if words.len() > 0 {
        let rest = words.drop_first();
        lemma_selection_takes_every_word(rest, key_count);
        assert forall|i: int| 0 < i < words.len() implies #[trigger] words[i] == rest[i - 1] by {}
        match parse_unsigned(words[0], usize::MAX as nat) {
            Err(_) => {},
            Ok(n) => {
                if !(n == 0 || n >= key_count) {
                    if let Ok(v) = selection_from(words, key_count) {
                        let tail = selection_from(rest, key_count);
                        assert(tail is Ok);
                        let w = tail->Ok_0;
                        assert(v == seq![(n - 1) as nat] + w);
                        assert forall|i: int| 0 <= i < words.len() implies parse_unsigned(
                            #[trigger] words[i],
                            usize::MAX as nat,
                        ) == Ok::<nat, NumberError>(v[i] + 1) && v[i] + 1 < key_count by {
                            if i > 0 {
                                assert(v[i] == w[i - 1]);
                                assert(words[i] == rest[i - 1]);
                            }
                        }
                    }
                    if exists|i: int|
                        0 <= i < words.len() && numbers_no_row(#[trigger] words[i], key_count) {
                        let i = choose|i: int|
                            0 <= i < words.len() && numbers_no_row(#[trigger] words[i], key_count);
                        assert(i > 0);
                        assert(numbers_no_row(rest[i - 1], key_count));
                    }
                }
            },
        }
    }
}

/// An answer that lists row numbers, separated by single spaces.
pub open spec fn selection_answer(indices: Seq<nat>) -> Seq<char> {
    join_fields(indices.map_values(|i: nat| decimal(i + 1)), ' ')
}

proof fn lemma_selection_words(indices: Seq<nat>, key_count: nat)
    requires
        key_count <= usize::MAX,
        forall|i: int| 0 <= i < indices.len() ==> #[trigger] indices[i] + 1 < key_count,
    ensures
        selection_from(indices.map_values(|i: nat| decimal(i + 1)), key_count) == Ok::<
            _,
            (Seq<char>, SelectionProblem),
        >(indices),
    decreases indices.len(),
{
    let ws = indices.map_values(|i: nat| decimal(i + 1));
    if indices.len() == 0 {
        assert(indices =~= Seq::<nat>::empty());
    } else {
        let rest = indices.drop_first();
        assert forall|i: int| 0 <= i < rest.len() implies #[trigger] rest[i] + 1 < key_count by {
            assert(rest[i] == indices[i + 1]);
        }
        lemma_selection_words(rest, key_count);
        assert(ws.drop_first() =~= rest.map_values(|i: nat| decimal(i + 1)));
        assert(indices[0] + 1 < key_count);
        lemma_parse_decimal(indices[0] + 1, usize::MAX as nat);
        assert(ws[0] == decimal(indices[0] + 1));
        assert(seq![indices[0]] + rest =~= indices);
    }
}

/// An answer that lists the row numbers of keys that can be chosen reads
/// back as exactly those key indices, in order.
pub proof fn lemma_selection_round_trip(indices: Seq<nat>, key_count: nat)
    requires
        key_count <= usize::MAX,
        forall|i: int| 0 <= i < indices.len() ==> #[trigger] indices[i] + 1 < key_count,
    ensures
        selection(selection_answer(indices), key_count) == Ok::<_, (Seq<char>, SelectionProblem)>(
            indices,
        ),
{
    let ws = indices.map_values(|i: nat| decimal(i + 1));
    assert forall|i: int| 0 <= i < ws.len() implies (#[trigger] ws[i]).len() > 0
        && free_of_whitespace(ws[i]) by {
        lemma_decimal_digits(indices[i] + 1);
        assert(ws[i] == decimal(indices[i] + 1));
        let d = decimal(indices[i] + 1);
        assert forall|k: int| 0 <= k < d.len() implies !is_whitespace(#[trigger] d[k]) by {
            assert(crate::number::is_digit(d[k]));
        }
    }
    lemma_words_of_join(ws);
    lemma_selection_words(indices, key_count);
    let text = selection_answer(indices);
    if text.len() > 0 {
        lemma_join_fields_ends(ws);
        lemma_trimmed_unchanged(text);
    } else {
        assert(trimmed(text) =~= text);
    }
}

proof fn lemma_join_fields_ends(ws: Seq<Seq<char>>)
    requires
        forall|i: int| 0 <= i < ws.len() ==> (#[trigger] ws[i]).len() > 0 && free_of_whitespace(ws[i]),
        join_fields(ws, ' ').len() > 0,
    ensures
        !is_whitespace(join_fields(ws, ' ')[0]),
        !is_whitespace(join_fields(ws, ' ').last()),
    decreases ws.len(),
{
    let j = join_fields(ws, ' ');
    assert(ws.len() > 0);
    assert(ws[0].len() > 0 && free_of_whitespace(ws[0]));
    assert(j[0] == ws[0][0]);
    if ws.len() > 1 {
        let rest = ws.drop_first();
        assert forall|i: int| 0 <= i < rest.len() implies (#[trigger] rest[i]).len() > 0
            && free_of_whitespace(rest[i]) by {
            assert(rest[i] == ws[i + 1]);
        }
        assert(rest[0] == ws[1]);
        assert(join_fields(rest, ' ').len() >= rest[0].len()) by {
            if rest.len() > 1 {
                assert(join_fields(rest, ' ') == rest[0] + seq![' '] + join_fields(rest.drop_first(), ' '));
            }
        }
        lemma_join_fields_ends(rest);
        assert(j.last() == join_fields(rest, ' ').last());
    } else {
        assert(j == ws[0]);
        assert(j.last() == ws[0][ws[0].len() - 1]);
    }
}

} // verus!

verus! {

/// The key ids at the chosen indices.
pub open spec fn chosen_ids(keys: Seq<(Seq<char>, Seq<char>)>, indices: Seq<nat>) -> Seq<Seq<char>> {
    indices.map_values(|i: nat| keys[i as int].0)
}

/// The contents of the recipients file: each chosen key id on a line of its own.
pub open spec fn recipients_contents(keys: Seq<(Seq<char>, Seq<char>)>, indices: Seq<nat>) -> Seq<char> {
    join_lines(chosen_ids(keys, indices))
}

/// How a chosen key is named in the commit message: `KEY (USER)`.
pub open spec fn recipient_label(key: (Seq<char>, Seq<char>)) -> Seq<char> {
    key.0 + seq![' ', '('] + key.1 + seq![')']
}

/// The commit message that records the chosen recipients.
pub open spec fn recipients_message(keys: Seq<(Seq<char>, Seq<char>)>, indices: Seq<nat>) -> Seq<char> {
    "Added recipients: "@ + join_with(
        indices.map_values(|i: nat| recipient_label(keys[i as int])),
        seq![',', ' '],
    )
}

/// The contents of the recipients file for the chosen keys.
pub fn recipients_file(keys: &Vec<(String, String)>, indices: &Vec<usize>) -> (r: String)
    requires
        forall|i: int| 0 <= i < indices@.len() ==> #[trigger] indices@[i] < keys@.len(),
    ensures
        r@ == recipients_contents(entry_views(keys@), index_views(indices@)),
        r@ == join_lines(Seq::new(indices@.len(), |j: int| keys@[indices@[j] as int].0@)),
        (forall|k: int| 0 <= k < keys@.len() ==> line_safe(#[trigger] keys@[k].0@)) ==> {
            &&& lines_of(r@).len() == indices@.len()
            &&& forall|j: int|
                0 <= j < indices@.len() ==> #[trigger] lines_of(r@)[j] == keys@[indices@[j] as int].0@
        },
{
    proof {
        lemma_recipients_file_lines(entry_views(keys@), index_views(indices@));
    }
    let ghost ks = entry_views(keys@);
    let ghost ids = chosen_ids(ks, index_views(indices@));
    assert(ids =~= Seq::new(indices@.len(), |j: int| keys@[indices@[j] as int].0@));
    let mut r = String::new();
    let mut i: usize = 0;
    proof {
        reveal_strlit("\n");
        assert(ids.take(0) =~= Seq::<Seq<char>>::empty());
    }
    while i < indices.len()
        invariant
            i <= indices@.len(),
            ks == entry_views(keys@),
            ids == chosen_ids(ks, index_views(indices@)),
            forall|j: int| 0 <= j < indices@.len() ==> #[trigger] indices@[j] < keys@.len(),
            r@ == join_lines(ids.take(i as int)),
            "\n"@ == seq!['\n'],
        decreases indices@.len() - i,
    {
        let k = indices[i];
        r.append(keys[k].0.as_str());
        r.append("\n");
        proof {
            assert(ids.take(i + 1) =~= ids.take(i as int).push(ids[i as int]));
            assert(ids[i as int] == keys@[k as int].0@);
            lemma_join_lines_push(ids.take(i as int), ids[i as int]);
        }
        i = i + 1;
    }
    assert(ids.take(i as int) =~= ids);
    r
}

/// A key id that reads back as a line of its own: no line break in it, and
/// no carriage return at its end.
pub open spec fn line_safe(id: Seq<char>) -> bool {
    free_of(id, '\n') && (id.len() > 0 ==> id.last() != '\r')
}

/// The recipients file holds one line per chosen key, in the order chosen:
/// its `j`-th line is the id of the `j`-th chosen key.
pub proof fn lemma_recipients_file_lines(keys: Seq<(Seq<char>, Seq<char>)>, indices: Seq<nat>)
    ensures
        (forall|i: int| 0 <= i < indices.len() ==> #[trigger] indices[i] < keys.len())
            && (forall|k: int| 0 <= k < keys.len() ==> line_safe(#[trigger] keys[k].0)) ==> {
            &&& lines_of(recipients_contents(keys, indices)).len() == indices.len()
            &&& forall|j: int|
                0 <= j < indices.len() ==> #[trigger] lines_of(recipients_contents(keys, indices))[j]
                    == keys[indices[j] as int].0
        },
{
    if (forall|i: int| 0 <= i < indices.len() ==> #[trigger] indices[i] < keys.len()) && (forall|
        k: int,
    |
        0 <= k < keys.len() ==> line_safe(#[trigger] keys[k].0)) {
        let ids = chosen_ids(keys, indices);
        assert forall|i: int| 0 <= i < ids.len() implies free_of(#[trigger] ids[i], '\n') by {
            assert(ids[i] == keys[indices[i] as int].0);
            assert(line_safe(keys[indices[i] as int].0));
        }
        lemma_lines_of_join(ids);
        assert(ids.len() == indices.len());
        assert forall|j: int| 0 <= j < indices.len() implies #[trigger] lines_of(
            recipients_contents(keys, indices),
        )[j] == keys[indices[j] as int].0 by {
            assert(ids[j] == keys[indices[j] as int].0);
            assert(line_safe(keys[indices[j] as int].0));
            assert(strip_cr(ids[j]) == ids[j]);
        }
    }
}

/// The commit message that records the chosen recipients.
pub fn recipients_commit_message(keys: &Vec<(String, String)>, indices: &Vec<usize>) -> (r: String)
    requires
        forall|i: int| 0 <= i < indices@.len() ==> #[trigger] indices@[i] < keys@.len(),
    ensures
        r@ == recipients_message(entry_views(keys@), index_views(indices@)),
{
    let ghost ks = entry_views(keys@);
    let ghost labels = index_views(indices@).map_values(|i: nat| recipient_label(ks[i as int]));
    let mut body = String::new();
    let mut i: usize = 0;
    proof {
        reveal_strlit(", ");
        reveal_strlit(" (");
        reveal_strlit(")");
        assert(labels.take(0) =~= Seq::<Seq<char>>::empty());
    }
    while i < indices.len()
        invariant
            i <= indices@.len(),
            ks == entry_views(keys@),
            labels == index_views(indices@).map_values(|i: nat| recipient_label(ks[i as int])),
            forall|j: int| 0 <= j < indices@.len() ==> #[trigger] indices@[j] < keys@.len(),
            body@ == join_with(labels.take(i as int), seq![',', ' ']),
            ", "@ == seq![',', ' '],
            " ("@ == seq![' ', '('],
            ")"@ == seq![')'],
        decreases indices@.len() - i,
    {
        let k = indices[i];
        let ghost before = body@;
        if i > 0 {
            body.append(", ");
        }
        body.append(keys[k].0.as_str());
        body.append(" (");
        body.append(keys[k].1.as_str());
        body.append(")");
        proof {
            let t = labels.take(i + 1);
            assert(t.drop_last() =~= labels.take(i as int));
            assert(t.last() == labels[i as int]);
            assert(labels[i as int] == recipient_label(ks[k as int]));
            assert(ks[k as int] == (keys@[k as int].0@, keys@[k as int].1@));
            if i == 0 {
                assert(before =~= Seq::<char>::empty());
                assert(body@ =~= labels[i as int]);
            } else {
                assert(body@ =~= before + seq![',', ' '] + labels[i as int]);
            }
        }
        i = i + 1;
    }
    assert(labels.take(i as int) =~= labels);
    let mut r = String::from_str("Added recipients: ");
    r.append(body.as_str());
    r
}

/// The recipients that a recipients file names: its lines, trimmed.
pub open spec fn recipients_of(contents: Seq<char>) -> Seq<Seq<char>> {
    lines_of(contents).map_values(|l: Seq<char>| trimmed(l))
}

/// The recipients named in the contents of the recipients file.
pub fn recipients(contents: &str) -> (r: Vec<String>)
    ensures
        views(r@) == recipients_of(contents@),
{
    let ls = lines(contents);
    let ghost all = views(ls@);
    let mut r: Vec<String> = Vec::new();
    let mut i: usize = 0;
    while i < ls.len()
        invariant
            i <= ls@.len(),
            all == views(ls@),
            all == lines_of(contents@),
            views(r@) == all.take(i as int).map_values(|l: Seq<char>| trimmed(l)),
        decreases ls@.len() - i,
    {
        let t = trim(ls[i].as_str());
        let ghost before = views(r@);
        r.push(t);
        proof {
            assert(views(r@) =~= before.push(t@));
            assert(all.take(i + 1).map_values(|l: Seq<char>| trimmed(l)) =~= all.take(
                i as int,
            ).map_values(|l: Seq<char>| trimmed(l)).push(trimmed(all[i as int])));
        }
        i = i + 1;
    }
    assert(all.take(i as int) =~= all);
    r
}

/// A key id that the recipients file keeps as it is: on one line, without
/// whitespace around it.
pub open spec fn bare_id(s: Seq<char>) -> bool {
    &&& free_of(s, '\n')
    &&& s.len() > 0 ==> !is_whitespace(s[0]) && !is_whitespace(s.last())
}

/// The recipients read back from a recipients file are exactly the key ids
/// that were chosen when it was written, in order.
pub proof fn lemma_recipients_round_trip(keys: Seq<(Seq<char>, Seq<char>)>, indices: Seq<nat>)
    requires
        forall|i: int| 0 <= i < indices.len() ==> #[trigger] indices[i] < keys.len(),
        forall|i: int| 0 <= i < keys.len() ==> bare_id(#[trigger] keys[i].0),
    ensures
        recipients_of(recipients_contents(keys, indices)) == chosen_ids(keys, indices),
{
    let ids = chosen_ids(keys, indices);
    assert forall|i: int| 0 <= i < ids.len() implies free_of(#[trigger] ids[i], '\n') by {
        assert(ids[i] == keys[indices[i] as int].0);
        assert(bare_id(keys[indices[i] as int].0));
    }
    lemma_lines_of_join(ids);
    assert forall|i: int| 0 <= i < ids.len() implies trimmed(strip_cr(#[trigger] ids[i])) == ids[i] by {
        assert(ids[i] == keys[indices[i] as int].0);
        assert(bare_id(keys[indices[i] as int].0));
        if ids[i].len() > 0 {
            lemma_trimmed_unchanged(ids[i]);
        } else {
            assert(trimmed(ids[i]) =~= ids[i]);
        }
    }
    assert(ids.map_values(|l: Seq<char>| strip_cr(l)).map_values(|l: Seq<char>| trimmed(l)) =~= ids);
}

/// One row of the table of keys to choose from: the row number right-aligned
/// in three columns, then the key id and the user id, four spaces apart.
pub open spec fn key_row_text(number: nat, key: (Seq<char>, Seq<char>)) -> Seq<char> {
    pad_left(decimal(number), 3) + seq![' ', ' ', ' ', ' '] + key.0 + seq![' ', ' ', ' ', ' ']
        + key.1
}

/// Why the recipients cannot be chosen.
#[derive(Debug, Clone, Copy, PartialEq, Eq, Structural)]
pub enum RecipientsError {
    /// GPG lists no key.
    NoKeys,
}

/// The table of keys to choose recipients from, rows numbered from 1; there
/// is nothing to choose from when GPG lists no key.
pub fn key_rows(keys: &Vec<(String, String)>) -> (r: Result<Vec<String>, RecipientsError>)
    ensures
        keys@.len() == 0 <==> r is Err,
        r matches Ok(rows) ==> rows@.len() == keys@.len() && forall|i: int|
            0 <= i < rows@.len() ==> (#[trigger] rows@[i])@ == key_row_text(
                (i + 1) as nat,
                entry_views(keys@)[i],
            ),
{
    if keys.len() == 0 {
        return Err(RecipientsError::NoKeys);
    }
    let mut rows: Vec<String> = Vec::new();
    let mut i: usize = 0;
    proof {
        reveal_strlit("    ");
    }
    while i < keys.len()
        invariant
            i <= keys@.len(),
            rows@.len() == i,
            "    "@ == seq![' ', ' ', ' ', ' '],
            forall|j: int|
                0 <= j < i ==> (#[trigger] rows@[j])@ == key_row_text(
                    (j + 1) as nat,
                    entry_views(keys@)[j],
                ),
        decreases keys@.len() - i,
    {
        let number = render_decimal((i + 1) as u64);
        let mut row = pad_left_text(number.as_str(), 3);
        row.append("    ");
        row.append(keys[i].0.as_str());
        row.append("    ");
        row.append(keys[i].1.as_str());
        assert(row@ =~= key_row_text((i + 1) as nat, entry_views(keys@)[i as int]));
        rows.push(row);
        i = i + 1;
    }
    Ok(rows)
}

/// The arguments of `gpg` that encrypt standard input into `output_file` for
/// each of the recipients.
pub open spec fn encrypt_arguments(output_file: Seq<char>, recipients: Seq<Seq<char>>) -> Seq<
    Seq<char>,
> {
    seq!["--quiet"@, "--encrypt"@, "--output"@, output_file] + recipient_arguments(recipients)
}

/// `--recipient R` for each recipient, in order.
pub open spec fn recipient_arguments(recipients: Seq<Seq<char>>) -> Seq<Seq<char>>
    decreases recipients.len(),
{
    if recipients.len() == 0 {
        seq![]
    } else {
        recipient_arguments(recipients.drop_last()) + seq!["--recipient"@, recipients.last()]
    }
}

/// The arguments of the `gpg` invocation that encrypts a key into
/// `output_file` for the recipients.
pub fn encrypt(output_file: &str, recipients: &Vec<String>) -> (r: Vec<String>)
    ensures
        views(r@) == encrypt_arguments(output_file@, views(recipients@)),
{
    let mut r: Vec<String> = Vec::new();
    r.push("--quiet".to_owned());
    r.push("--encrypt".to_owned());
    r.push("--output".to_owned());
    r.push(output_file.to_owned());
    let ghost rs = views(recipients@);
    assert(views(r@) =~= seq!["--quiet"@, "--encrypt"@, "--output"@, output_file@]);
    assert(rs.take(0) =~= Seq::<Seq<char>>::empty());
    let mut i: usize = 0;
    while i < recipients.len()
        invariant
            i <= recipients@.len(),
            rs == views(recipients@),
            views(r@) == seq!["--quiet"@, "--encrypt"@, "--output"@, output_file@]
                + recipient_arguments(rs.take(i as int)),
        decreases recipients@.len() - i,
    {
        let ghost before = views(r@);
        r.push("--recipient".to_owned());
        r.push(recipients[i].clone());
        proof {
            assert(views(r@) =~= before.push("--recipient"@).push(recipients@[i as int]@));
            assert(rs.take(i + 1).drop_last() =~= rs.take(i as int));
            assert(rs.take(i + 1).last() == recipients@[i as int]@);
            assert(before.push("--recipient"@).push(recipients@[i as int]@) =~= seq![
                "--quiet"@,
                "--encrypt"@,
                "--output"@,
                output_file@,
            ] + recipient_arguments(rs.take(i + 1)));
        }
        i = i + 1;
    }
    assert(rs.take(i as int) =~= rs);
    r
}

/// The arguments of the `gpg` invocation that decrypts `input_file` to
/// standard output.
pub fn decrypt(input_file: &str) -> (r: Vec<String>)
    ensures
        views(r@) == seq!["--quiet"@, "--decrypt"@, input_file@],
{
    let mut r: Vec<String> = Vec::new();
    r.push("--quiet".to_owned());
    r.push("--decrypt".to_owned());
    r.push(input_file.to_owned());
    assert(views(r@) =~= seq!["--quiet"@, "--decrypt"@, input_file@]);
    r
}

} // verus!
