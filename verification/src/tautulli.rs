//! Watch history from Tautulli: whose it is, how it is asked for, and how its rows are joined
//! to the catalog.

use vstd::prelude::*;

use crate::catalog::{sourced_id, Catalog, Source};
use crate::names::{contains_name, texts};
use crate::score::WatchEvent;
use crate::text::{
    chars_of, concat, decimal, quoted, quoted_text, signed_decimal, text_of, trim, trimmed,
    write_decimal, write_signed,
};

verus! {

/// How many rows are asked for; Tautulli gives the newest first.
pub const HISTORY_ROWS: u64 = 1000;

/// Where Tautulli is and the key it takes, when both are set: a station without them simply
/// has no watch history.
pub fn credentials(url: Option<String>, key: Option<String>) -> (out: Option<(String, String)>)
    ensures
        match (url, key) {
            (Some(u), Some(k)) if u@.len() > 0 && k@.len() > 0 => out == Some((u, k)),
            _ => out is None,
        },
{
    match (url, key) {
        (Some(u), Some(k)) => if u.as_str().unicode_len() > 0 && k.as_str().unicode_len() > 0 {
            Some((u, k))
        } else {
            None
        },
        _ => None,
    }
}

/// Whose history is asked for.
#[derive(Debug)]
pub enum HistoryScope {
    /// Every user's, pooled.
    AllUsers,
    /// One account's, by its name or its number.
    User(String),
}

/// Whether a text is a number as Tautulli numbers accounts: digits alone, and at least one.
pub open spec fn numeric(s: Seq<char>) -> bool {
    s.len() > 0 && forall|i: int| 0 <= i < s.len() ==> '0' <= #[trigger] s[i] <= '9'
}

/// Whether a text is a number as Tautulli numbers accounts. A sign or a space makes it a name.
pub fn is_numeric_id(s: &str) -> (out: bool)
    ensures
        out == numeric(s@),
{
    let n: usize = s.unicode_len();
    let mut i: usize = 0;
    while i < n
        invariant
            i <= n,
            n == s@.len(),
            forall|j: int| 0 <= j < i ==> '0' <= #[trigger] s@[j] <= '9',
        decreases n - i,
    {
        let c: char = s.get_char(i);
        if !('0' <= c && c <= '9') {
            assert(!('0' <= s@[i as int] <= '9'));
            return false;
        }
        i += 1;
    }
    n > 0
}

/// The filter that a scope adds to a request: none for everybody, and else the account under
/// the parameter that its spelling tells.
pub open spec fn filter_of(scope: HistoryScope) -> Option<(Seq<char>, Seq<char>)> {
    match scope {
        HistoryScope::AllUsers => None,
        HistoryScope::User(user) => if numeric(user@) {
            Some(("user_id"@, user@))
        } else {
            Some(("user"@, user@))
        },
    }
}

/// How a scope is named.
pub open spec fn scope_label(scope: HistoryScope) -> Seq<char> {
    match scope {
        HistoryScope::AllUsers => "all_users"@,
        HistoryScope::User(user) => user@,
    }
}

impl HistoryScope {
    /// The parameter that this scope adds to a request, if any, and its value as it was
    /// written.
    pub fn query_param(&self) -> (out: Option<(&'static str, &str)>)
        ensures
            match (out, filter_of(*self)) {
                (Some(got), Some(want)) => got.0@ == want.0 && got.1@ == want.1,
                (None, None) => true,
                _ => false,
            },
    {
        match self {
            HistoryScope::AllUsers => None,
            HistoryScope::User(user) => if is_numeric_id(user.as_str()) {
                Some(("user_id", user.as_str()))
            } else {
                Some(("user", user.as_str()))
            },
        }
    }

    /// How this scope is named.
    pub fn label(&self) -> (out: &str)
        ensures
            out@ == scope_label(*self),
    {
        match self {
            HistoryScope::AllUsers => "all_users",
            HistoryScope::User(user) => user.as_str(),
        }
    }
}

/// How Tautulli writes the key of an item.
#[derive(Debug)]
pub enum RatingKey {
    Text(String),
    Number(i64),
}

impl RatingKey {
    /// The key as text.
    pub open spec fn text(self) -> Seq<char> {
        match self {
            RatingKey::Text(text) => text@,
            RatingKey::Number(n) => signed_decimal(n as int),
        }
    }

    /// The key as text.
    pub fn to_text(&self) -> (out: String)
        ensures
            out@ == self.text(),
    {
        match self {
            RatingKey::Text(text) => text.clone(),
            RatingKey::Number(n) => write_signed(*n),
        }
    }
}

/// One row of watch history.
#[derive(Debug)]
pub struct HistoryRow {
    /// The key of the item in Plex.
    pub rating_key: Option<RatingKey>,
    /// When playback stopped, in seconds since the epoch; absent while it still plays.
    pub stopped: Option<i64>,
    /// The name that the account shows.
    pub friendly_name: Option<String>,
    /// The name of the account.
    pub user: Option<String>,
    /// The number of the account.
    pub user_id: Option<i64>,
}

/// A name without the white space at its ends, if anything is left of it.
pub open spec fn named(name: Option<String>) -> Option<Seq<char>> {
    match name {
        Some(text) => if trimmed(text@).len() > 0 {
            Some(trimmed(text@))
        } else {
            None
        },
        None => None,
    }
}

fn usable_name(name: &Option<String>) -> (out: Option<String>)
    ensures
        match (out, named(*name)) {
            (Some(got), Some(want)) => got@ == want,
            (None, None) => true,
            _ => false,
        },
{
    match name {
        Some(text) => {
            let short: String = trim(text.as_str());
            if short.as_str().unicode_len() > 0 {
                Some(short)
            } else {
                None
            }
        },
        None => None,
    }
}

/// Who a row is credited to: the name that the account shows, else the account's own name. A
/// blank name is no name.
pub open spec fn credited(row: HistoryRow) -> Option<Seq<char>> {
    match named(row.friendly_name) {
        Some(name) => Some(name),
        None => named(row.user),
    }
}

impl HistoryRow {
    /// Who this row is credited to, if it names anybody.
    pub fn watcher(&self) -> (out: Option<String>)
        ensures
            match (out, credited(*self)) {
                (Some(got), Some(want)) => got@ == want,
                (None, None) => true,
                _ => false,
            },
    {
        match usable_name(&self.friendly_name) {
            Some(name) => Some(name),
            None => usable_name(&self.user),
        }
    }
}

/// The number that digits write.
pub open spec fn number(s: Seq<char>) -> int
    decreases s.len(),
{
    if s.len() == 0 {
        0
    } else {
        number(s.drop_last()) * 10 + (s.last() as int - '0' as int)
    }
}

/// The first account number among rows.
pub open spec fn first_account(rows: Seq<HistoryRow>) -> Option<i64>
    decreases rows.len(),
{
    if rows.len() == 0 {
        None
    } else {
        match rows[0].user_id {
            Some(id) => Some(id),
            None => first_account(rows.skip(1)),
        }
    }
}

/// The account that a scope comes to. Everybody is no account; digits are the account's number
/// themselves, with no row consulted; a name is looked up in the rows that were fetched for
/// it.
pub open spec fn account_of(scope: HistoryScope, rows: Seq<HistoryRow>) -> Result<
    Option<i64>,
    Seq<char>,
> {
    match scope {
        HistoryScope::AllUsers => Ok(None),
        HistoryScope::User(user) => if numeric(user@) {
            if number(user@) <= i64::MAX {
                Ok(Some(number(user@) as i64))
            } else {
                Err(
                    "user "@ + quoted_text(user@)
                        + " does not fit a 64-bit account id: number too large to fit in target type"@,
                )
            }
        } else {
            match first_account(rows) {
                Some(id) => Ok(Some(id)),
                None => Err(
                    "no account found for user "@ + quoted_text(user@)
                        + " (wrong name, or Tautulli was unreachable this fetch)"@,
                ),
            }
        },
    }
}

proof fn lemma_number_grows(s: Seq<char>, i: int)
    requires
        numeric(s),
        0 <= i <= s.len(),
    ensures
        0 <= number(s.take(i)) <= number(s),
    decreases s.len() - i,
{
    lemma_number_positive(s, i);
    if i < s.len() {
        lemma_number_grows(s, i + 1);
        assert(s.take(i + 1).drop_last() =~= s.take(i));
        assert('0' <= s[i] <= '9');
    } else {
        assert(s.take(i) =~= s);
    }
}

proof fn lemma_number_positive(s: Seq<char>, i: int)
    requires
        numeric(s),
        0 <= i <= s.len(),
    ensures
        0 <= number(s.take(i)),
    decreases i,
{
    if i > 0 {
        lemma_number_positive(s, i - 1);
        assert(s.take(i).drop_last() =~= s.take(i - 1));
        assert('0' <= s[i - 1] <= '9');
    }
}

fn read_number(s: &str) -> (out: Option<i64>)
    requires
        numeric(s@),
    ensures
        match out {
            Some(n) => n == number(s@),
            None => number(s@) > i64::MAX,
        },
{
    let n: usize = s.unicode_len();
    let mut value: i64 = 0;
    let mut i: usize = 0;
    assert(s@.take(0) =~= Seq::<char>::empty());
    while i < n
        invariant
            i <= n,
            n == s@.len(),
            numeric(s@),
            0 <= value,
            value == number(s@.take(i as int)),
        decreases n - i,
    {
        let c: char = s.get_char(i);
        assert('0' <= s@[i as int] <= '9');
        assert(s@.take(i + 1).drop_last() =~= s@.take(i as int));
        let wide: i128 = value as i128 * 10 + (c as i128 - '0' as i128);
        if wide > i64::MAX as i128 {
            proof {
                lemma_number_grows(s@, i + 1);
            }
            return None;
        }
        value = wide as i64;
        i += 1;
    }
    assert(s@.take(i as int) =~= s@);
    Some(value)
}

fn find_account(rows: &Vec<HistoryRow>) -> (out: Option<i64>)
    ensures
        out == first_account(rows@),
{
    let mut i: usize = 0;
    assert(rows@.skip(0) =~= rows@);
    while i < rows.len()
        invariant
            i <= rows.len(),
            first_account(rows@) == first_account(rows@.skip(i as int)),
        decreases rows.len() - i,
    {
        assert(rows@.skip(i as int).skip(1) =~= rows@.skip(i + 1));
        match rows[i].user_id {
            Some(id) => return Some(id),
            None => {},
        }
        i += 1;
    }
    None
}

/// Finds the account that a scope comes to. A name that no row resolves fails, by that name: a
/// script must never fall back to everybody's taste in silence.
pub fn resolve_account_id(scope: &HistoryScope, rows: &Vec<HistoryRow>) -> (out: Result<
    Option<i64>,
    String,
>)
    ensures
        match (out, account_of(*scope, rows@)) {
            (Ok(got), Ok(want)) => got == want,
            (Err(got), Err(want)) => got@ == want,
            _ => false,
        },
{
    match scope {
        HistoryScope::AllUsers => Ok(None),
        HistoryScope::User(user) => {
            if is_numeric_id(user.as_str()) {
                return match read_number(user.as_str()) {
                    Some(id) => Ok(Some(id)),
                    None => Err(
                        concat(
                            "user ",
                            quoted(user.as_str()).as_str(),
                            " does not fit a 64-bit account id: number too large to fit in target type",
                        ),
                    ),
                };
            }
            match find_account(rows) {
                Some(id) => Ok(Some(id)),
                None => Err(
                    concat(
                        "no account found for user ",
                        quoted(user.as_str()).as_str(),
                        " (wrong name, or Tautulli was unreachable this fetch)",
                    ),
                ),
            }
        },
    }
}

/// What stands for the key in a text that goes to a log.
pub open spec fn mask() -> Seq<char> {
    seq!['<', 'r', 'e', 'd', 'a', 'c', 't', 'e', 'd', '>']
}

/// Whether a text begins with another.
pub open spec fn begins(s: Seq<char>, head: Seq<char>) -> bool {
    s.len() >= head.len() && s.take(head.len() as int) == head
}

/// A text in which every occurrence of the key, from the left, is masked.
pub open spec fn masked(s: Seq<char>, key: Seq<char>) -> Seq<char>
    decreases s.len(),
{
    if key.len() == 0 || s.len() < key.len() {
        s
    } else if begins(s, key) {
        mask() + masked(s.skip(key.len() as int), key)
    } else {
        seq![s[0]] + masked(s.skip(1), key)
    }
}

fn begins_at(chars: &Vec<char>, at: usize, head: &Vec<char>) -> (out: bool)
    requires
        at <= chars.len(),
    ensures
        out == begins(chars@.skip(at as int), head@),
{
    if chars.len() - at < head.len() {
        return false;
    }
    let ghost rest = chars@.skip(at as int);
    let mut i: usize = 0;
    while i < head.len()
        invariant
            i <= head.len(),
            at + head.len() <= chars.len(),
            rest == chars@.skip(at as int),
            forall|j: int| 0 <= j < i ==> rest[j] == #[trigger] head@[j],
        decreases head.len() - i,
    {
        if chars[at + i] != head[i] {
            assert(rest.take(head.len() as int)[i as int] != head@[i as int]);
            return false;
        }
        i += 1;
    }
    assert(rest.take(head.len() as int) =~= head@);
    true
}

/// Masks the key in a text that goes to a log: the key is part of the request, and a failed
/// request is told with it.
pub fn redact_key(text: &str, key: &str) -> (out: String)
    ensures
        out@ == masked(text@, key@),
{
    if key.unicode_len() == 0 {
        return text.to_owned();
    }
    let chars: Vec<char> = chars_of(text);
    let head: Vec<char> = chars_of(key);
    let mut out: String = String::new();
    let mut i: usize = 0;
    assert(chars@.skip(0) =~= chars@);
    assert(out@ + masked(chars@.skip(0), key@) =~= masked(text@, key@));
    while i < chars.len() && chars.len() - i >= head.len()
        invariant
            i <= chars.len(),
            head@ == key@,
            head.len() > 0,
            chars@ == text@,
            out@ + masked(chars@.skip(i as int), key@) == masked(text@, key@),
        decreases chars.len() - i,
    {
        let ghost rest = chars@.skip(i as int);
        let ghost before = out@;
        if begins_at(&chars, i, &head) {
            out.append("<redacted>");
            proof {
                reveal_strlit("<redacted>");
                assert("<redacted>"@ =~= mask());
                assert(rest.skip(key@.len() as int) =~= chars@.skip(i + key@.len()));
                assert(before + (mask() + masked(chars@.skip(i + key@.len()), key@)) =~= out@
                    + masked(chars@.skip(i + key@.len()), key@));
            }
            i = i + head.len();
        } else {
            out.push(chars[i]);
            proof {
                assert(rest.skip(1) =~= chars@.skip(i + 1));
                assert(before + (seq![rest[0]] + masked(chars@.skip(i + 1), key@)) =~= out@
                    + masked(chars@.skip(i + 1), key@));
            }
            i += 1;
        }
    }
    let tail: String = text_of(&chars, i, chars.len());
    out.append(tail.as_str());
    assert(tail@ =~= chars@.skip(i as int));
    out
}

/// Whether a text occurs in another.
pub open spec fn occurs(s: Seq<char>, part: Seq<char>) -> bool {
    exists|i: int|
        0 <= i <= s.len() - part.len() && #[trigger] s.subrange(i, i + part.len()) == part
}

proof fn lemma_unmasked_prefix(s: Seq<char>, key: Seq<char>, k: int)
    requires
        key.len() > 0,
        0 <= k <= masked(s, key).len(),
        forall|i: int| 0 <= i < k ==> #[trigger] masked(s, key)[i] != '<',
    ensures
        k <= s.len(),
        s.take(k) == masked(s, key).take(k),
    decreases k,
{
    let out = masked(s, key);
    if k > 0 && s.len() >= key.len() {
        if begins(s, key) {
            assert(out[0] == mask()[0]);
        } else {
            let rest = masked(s.skip(1), key);
            assert(out.skip(1) =~= rest);
            assert forall|i: int| 0 <= i < k - 1 implies #[trigger] rest[i] != '<' by {
                assert(out[i + 1] == rest[i]);
            }
            lemma_unmasked_prefix(s.skip(1), key, k - 1);
            assert(s.take(k) =~= out.take(k)) by {
                assert forall|i: int| 0 <= i < k implies s[i] == out[i] by {
                    if i > 0 {
                        assert(s.skip(1).take(k - 1)[i - 1] == rest.take(k - 1)[i - 1]);
                    }
                }
            }
        }
    } else {
        assert(s.take(k) =~= out.take(k));
    }
}

/// A masked text does not hold the key, whatever the text was: unless the key holds a bracket
/// of the mask, or is itself a part of the mask's word, or is empty.
pub proof fn the_key_is_masked(s: Seq<char>, key: Seq<char>)
    requires
        key.len() > 0,
        !key.contains('<'),
        !key.contains('>'),
        !occurs(mask().subrange(1, 9), key),
    ensures
        !occurs(masked(s, key), key),
    decreases s.len(),
{
    let out = masked(s, key);
    let n = key.len() as int;
    if s.len() < key.len() {
        assert(out == s);
    } else if begins(s, key) {
        let rest = masked(s.skip(n), key);
        the_key_is_masked(s.skip(n), key);
        assert forall|i: int| 0 <= i <= out.len() - n implies #[trigger] out.subrange(i, i + n)
            != key by {
            if out.subrange(i, i + n) == key {
                if i >= 10 {
                    assert(rest.subrange(i - 10, i - 10 + n) =~= out.subrange(i, i + n));
                } else if i == 0 {
                    assert(key[0] == '<');
                } else if i + n <= 9 {
                    assert(mask().subrange(1, 9).subrange(i - 1, i - 1 + n) =~= out.subrange(
                        i,
                        i + n,
                    ));
                } else {
                    assert(key[9 - i] == out[9]);
                    assert(out[9] == '>');
                }
            }
        }
    } else {
        let rest = masked(s.skip(1), key);
        the_key_is_masked(s.skip(1), key);
        assert forall|i: int| 0 <= i <= out.len() - n implies #[trigger] out.subrange(i, i + n)
            != key by {
            if out.subrange(i, i + n) == key {
                if i >= 1 {
                    assert(rest.subrange(i - 1, i - 1 + n) =~= out.subrange(i, i + n));
                } else {
                    assert forall|j: int| 0 <= j < n implies #[trigger] out[j] != '<' by {
                        assert(key[j] == out.subrange(0, n)[j]);
                    }
                    lemma_unmasked_prefix(s, key, n);
                    assert(s.take(n) =~= key) by {
                        assert(out.take(n) =~= out.subrange(0, n));
                    }
                }
            }
        }
    }
}

/// A text without the slashes at its end.
pub open spec fn without_slashes(s: Seq<char>) -> Seq<char>
    decreases s.len(),
{
    if s.len() > 0 && s.last() == '/' {
        without_slashes(s.drop_last())
    } else {
        s
    }
}

/// Where the watch history is asked for.
pub open spec fn endpoint_text(url: Seq<char>, key: Seq<char>) -> Seq<char> {
    without_slashes(url) + "/api/v2?apikey="@ + key + "&cmd=get_history&length="@ + decimal(
        HISTORY_ROWS as nat,
    )
}

/// Where the watch history is asked for. The scope's parameter is added by what sends the
/// request, which encodes it.
pub fn endpoint(url: &str, key: &str) -> (out: String)
    ensures
        out@ == endpoint_text(url@, key@),
{
    let chars: Vec<char> = chars_of(url);
    let mut n: usize = chars.len();
    assert(chars@.take(n as int) =~= chars@);
    while n > 0 && chars[n - 1] == '/'
        invariant
            n <= chars.len(),
            without_slashes(chars@) == without_slashes(chars@.take(n as int)),
        decreases n,
    {
        assert(chars@.take(n as int).drop_last() =~= chars@.take(n - 1));
        n -= 1;
    }
    let mut out: String = text_of(&chars, 0, n);
    assert(out@ =~= chars@.take(n as int));
    out.append("/api/v2?apikey=");
    out.append(key);
    out.append("&cmd=get_history&length=");
    out.append(write_decimal(HISTORY_ROWS).as_str());
    out
}

/// The key that a row is looked up by: none for a row without a key, or one that still plays.
pub open spec fn lookup_key(row: HistoryRow) -> Option<Seq<char>> {
    match (row.rating_key, row.stopped) {
        (Some(key), Some(_)) => Some(key.text()),
        _ => None,
    }
}

/// The keys that rows are looked up by.
pub open spec fn lookup_keys(rows: Seq<HistoryRow>) -> Seq<Seq<char>>
    decreases rows.len(),
{
    if rows.len() == 0 {
        Seq::empty()
    } else {
        let earlier = lookup_keys(rows.drop_last());
        match lookup_key(rows.last()) {
            Some(key) => earlier.push(key),
            None => earlier,
        }
    }
}

/// The watch event that a row comes to, when the catalog knows what was watched.
pub open spec fn watched(catalog: Catalog, row: HistoryRow) -> Option<
    (String, i64, Option<Seq<char>>),
> {
    match lookup_key(row) {
        Some(key) => match sourced_id(catalog.entries@, Source::Plex, key) {
            Some(entry_id) => Some((entry_id, row.stopped->0, credited(row))),
            None => None,
        },
        None => None,
    }
}

/// The watch events that rows come to, one for each row that the catalog knows.
pub open spec fn watched_all(catalog: Catalog, rows: Seq<HistoryRow>) -> Seq<
    (String, i64, Option<Seq<char>>),
>
    decreases rows.len(),
{
    if rows.len() == 0 {
        Seq::empty()
    } else {
        let earlier = watched_all(catalog, rows.drop_last());
        match watched(catalog, rows.last()) {
            Some(event) => earlier.push(event),
            None => earlier,
        }
    }
}

/// The keys of the rows that the catalog knows.
pub open spec fn matched_keys(catalog: Catalog, rows: Seq<HistoryRow>) -> Seq<Seq<char>>
    decreases rows.len(),
{
    if rows.len() == 0 {
        Seq::empty()
    } else {
        let earlier = matched_keys(catalog, rows.drop_last());
        match watched(catalog, rows.last()) {
            Some(_) => earlier.push(lookup_key(rows.last())->0),
            None => earlier,
        }
    }
}

/// A list without what it holds again.
pub open spec fn distinct(list: Seq<Seq<char>>) -> Seq<Seq<char>>
    decreases list.len(),
{
    if list.len() == 0 {
        list
    } else {
        let earlier = distinct(list.drop_last());
        if earlier.contains(list.last()) {
            earlier
        } else {
            earlier.push(list.last())
        }
    }
}

/// Watch events as mathematical values.
pub open spec fn events(list: Seq<WatchEvent>) -> Seq<(String, i64, Option<Seq<char>>)> {
    list.map_values(
        |e: WatchEvent|
            (
                e.entry_id,
                e.watched_at,
                match e.watcher {
                    Some(name) => Some(name@),
                    None => None,
                },
            ),
    )
}

/// What a join came to.
#[derive(Debug)]
pub struct Joined {
    pub events: Vec<WatchEvent>,
    /// How many rows there were.
    pub rows: usize,
    /// How many different keys were looked up.
    pub keys: usize,
    /// How many of those the catalog knows.
    pub matched: usize,
}

fn note_key(list: &mut Vec<String>, key: String)
    ensures
        texts(final(list)@) == if texts(old(list)@).contains(key@) {
            texts(old(list)@)
        } else {
            texts(old(list)@).push(key@)
        },
{
    let ghost before = texts(list@);
    let known: bool = contains_name(list, &key);
    proof {
        if known {
            let i = choose|i: int| 0 <= i < list@.len() && #[trigger] list@[i]@ == key@;
            assert(before[i] == key@);
        } else if before.contains(key@) {
            let i = choose|i: int| 0 <= i < before.len() && before[i] == key@;
            assert(list@[i]@ == key@);
        }
    }
    if !known {
        list.push(key);
        assert(texts(list@) =~= before.push(key@));
    }
}

fn watch_event(catalog: &Catalog, row: &HistoryRow, key: &String, stopped: i64) -> (out: Option<
    WatchEvent,
>)
    requires
        lookup_key(*row) == Some(key@),
        row.stopped == Some(stopped),
    ensures
        match (out, watched(*catalog, *row)) {
            (Some(got), Some(want)) => {
                &&& got.entry_id == want.0
                &&& got.watched_at == want.1
                &&& match (got.watcher, want.2) {
                    (Some(x), Some(y)) => x@ == y,
                    (None, None) => true,
                    _ => false,
                }
            },
            (None, None) => true,
            _ => false,
        },
{
    match catalog.entry_id_for_source(Source::Plex, key.as_str()) {
        Some(entry_id) => Some(
            WatchEvent { entry_id, watched_at: stopped, watcher: row.watcher() },
        ),
        None => None,
    }
}

/// Joins rows of watch history to the catalog: one event for each row whose item the catalog
/// knows, so that an item watched twice is two events. The counts go by different keys, so
/// that an item watched twice inflates none of them.
pub fn resolve(catalog: &Catalog, rows: &Vec<HistoryRow>) -> (out: Joined)
    ensures
        events(out.events@) == watched_all(*catalog, rows@),
        out.rows == rows@.len(),
        out.keys == distinct(lookup_keys(rows@)).len(),
        out.matched == distinct(matched_keys(*catalog, rows@)).len(),
{
    let mut found: Vec<WatchEvent> = Vec::new();
    let mut looked_up: Vec<String> = Vec::new();
    let mut matched: Vec<String> = Vec::new();
    let mut i: usize = 0;
    assert(rows@.take(0) =~= Seq::<HistoryRow>::empty());
    assert(texts(looked_up@) =~= Seq::<Seq<char>>::empty());
    assert(events(found@) =~= Seq::<(String, i64, Option<Seq<char>>)>::empty());
    while i < rows.len()
        invariant
            i <= rows.len(),
            events(found@) == watched_all(*catalog, rows@.take(i as int)),
            texts(looked_up@) == distinct(lookup_keys(rows@.take(i as int))),
            texts(matched@) == distinct(matched_keys(*catalog, rows@.take(i as int))),
        decreases rows.len() - i,
    {
        assert(rows@.take(i + 1).drop_last() =~= rows@.take(i as int));
        assert(rows@.take(i + 1).last() == rows@[i as int]);
        let row: &HistoryRow = &rows[i];
        let ghost earlier = lookup_keys(rows@.take(i as int));
        let ghost known = matched_keys(*catalog, rows@.take(i as int));
        match (&row.rating_key, row.stopped) {
            (Some(rating_key), Some(stopped)) => {
                let key: String = rating_key.to_text();
                assert(earlier.push(key@).drop_last() =~= earlier);
                assert(known.push(key@).drop_last() =~= known);
                note_key(&mut looked_up, key.clone());
                match watch_event(catalog, row, &key, stopped) {
                    Some(event) => {
                        let ghost before = events(found@);
                        note_key(&mut matched, key);
                        found.push(event);
                        assert(events(found@) =~= before.push(
                            watched(*catalog, *row)->0,
                        ));
                    },
                    None => {},
                }
            },
            _ => {},
        }
        i += 1;
    }
    assert(rows@.take(i as int) =~= rows@);
    assert(texts(looked_up@).len() == looked_up.len());
    assert(texts(matched@).len() == matched.len());
    Joined { events: found, rows: rows.len(), keys: looked_up.len(), matched: matched.len() }
}

/// Joins rows of watch history to the catalog. A row that matches nothing there is dropped.
pub fn join(catalog: &Catalog, rows: &Vec<HistoryRow>) -> (out: Vec<WatchEvent>)
    ensures
        events(out@) == watched_all(*catalog, rows@),
{
    resolve(catalog, rows).events
}

proof fn lemma_distinct_has(list: Seq<Seq<char>>, x: Seq<char>)
    ensures
        distinct(list).contains(x) <==> list.contains(x),
        distinct(list).no_duplicates(),
    decreases list.len(),
{
    if list.len() > 0 {
        let shorter = list.drop_last();
        lemma_distinct_has(shorter, x);
        lemma_distinct_has(shorter, list.last());
        assert(list =~= shorter.push(list.last()));
        let earlier = distinct(shorter);
        if shorter.contains(x) {
            let i = choose|i: int| 0 <= i < shorter.len() && shorter[i] == x;
            assert(list[i] == x);
        }
        if list.contains(x) {
            let i = choose|i: int| 0 <= i < list.len() && list[i] == x;
            if i < shorter.len() {
                assert(shorter[i] == x);
            }
        }
        if list.last() == x {
            assert(list[list.len() - 1] == x);
        }
        if !earlier.contains(list.last()) {
            let longer = earlier.push(list.last());
            assert(longer[earlier.len() as int] == list.last());
            if earlier.contains(x) {
                let k = choose|k: int| 0 <= k < earlier.len() && earlier[k] == x;
                assert(longer[k] == x);
            }
        }
    }
}

proof fn lemma_matched_is_looked_up(catalog: Catalog, rows: Seq<HistoryRow>, x: Seq<char>)
    ensures
        matched_keys(catalog, rows).contains(x) ==> lookup_keys(rows).contains(x),
        matched_keys(catalog, rows).len() == watched_all(catalog, rows).len(),
    decreases rows.len(),
{
    if rows.len() > 0 {
        let shorter = rows.drop_last();
        lemma_matched_is_looked_up(catalog, shorter, x);
        let earlier = lookup_keys(shorter);
        let known = matched_keys(catalog, shorter);
        if earlier.contains(x) {
            let k = choose|k: int| 0 <= k < earlier.len() && earlier[k] == x;
            assert(lookup_keys(rows)[k] == x);
        }
        if matched_keys(catalog, rows).contains(x) {
            let k = choose|k: int|
                0 <= k < matched_keys(catalog, rows).len() && matched_keys(catalog, rows)[k] == x;
            if k < known.len() {
                assert(known[k] == x);
            } else {
                assert(lookup_keys(rows)[earlier.len() as int] == x);
            }
        }
    }
}

/// A join never matches more keys than it looked up, nor more than it gave events: what is
/// missing between the two is exactly what the catalog does not know.
pub proof fn a_join_matches_no_more_than_it_looked_up(catalog: Catalog, rows: Seq<HistoryRow>)
    ensures
        distinct(matched_keys(catalog, rows)).len() <= distinct(lookup_keys(rows)).len(),
        distinct(matched_keys(catalog, rows)).len() <= watched_all(catalog, rows).len(),
{
    let some = distinct(matched_keys(catalog, rows));
    let all = distinct(lookup_keys(rows));
    assert forall|x: Seq<char>| some.contains(x) implies all.contains(x) by {
        lemma_distinct_has(matched_keys(catalog, rows), x);
        lemma_distinct_has(lookup_keys(rows), x);
        lemma_matched_is_looked_up(catalog, rows, x);
    }
    lemma_distinct_has(matched_keys(catalog, rows), Seq::empty());
    lemma_distinct_has(lookup_keys(rows), Seq::empty());
    some.unique_seq_to_set();
    all.unique_seq_to_set();
    vstd::set_lib::lemma_len_subset(some.to_set(), all.to_set());
    lemma_matched_is_looked_up(catalog, rows, Seq::empty());
    lemma_distinct_short(matched_keys(catalog, rows));
}

proof fn lemma_distinct_short(list: Seq<Seq<char>>)
    ensures
        distinct(list).len() <= list.len(),
    decreases list.len(),
{
    if list.len() > 0 {
        lemma_distinct_short(list.drop_last());
    }
}

} // verus!
