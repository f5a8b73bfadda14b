//! One activity sample of a game, its cleaning and filtering by title.

use vstd::prelude::*;
use vstd::string::*;
use crate::date::{parse_date, format_date_as, parsed_date, formatted_date};
use crate::text::{cut_at_space, before_first_space};

verus! {

/// One observation: a day (raw, then normalized), an active-user count and a title.
#[derive(Debug)]
pub struct GameData {
    pub date: String,
    pub active_users: i64,
    pub title: String,
}

/// The lower-case form of a text, as std writes it.
pub uninterp spec fn lower_of(s: Seq<char>) -> Seq<char>;

/// Relies on `str::to_lowercase`: the result depends on the characters alone.
#[verifier::external_body]
fn lowercase(s: &str) -> (r: String)
    ensures
        r@ == lower_of(s@),
{
    s.to_lowercase()
}

/// Whether two titles, already folded to lower case, are the same.
pub fn same_folded(folded_title: &String, folded_name: &String) -> (r: bool)
    ensures
        r == (folded_title@ == folded_name@),
{
    folded_title.eq(folded_name)
}

/// The samples of `gs` whose title matches `name` regardless of case, in order.
pub open spec fn with_title(gs: Seq<GameData>, name: Seq<char>) -> Seq<GameData>
    decreases gs.len(),
{
    if gs.len() == 0 {
        Seq::empty()
    } else {
        let rest = with_title(gs.drop_last(), name);
        if lower_of(gs.last().title@) == lower_of(name) {
            rest.push(gs.last())
        } else {
            rest
        }
    }
}

/// `MM/DD/YYYY` rewritten as `YYYY-MM-DD`; any other text as it is.
pub open spec fn reformatted(s: Seq<char>) -> Seq<char> {
    match parsed_date(s, "%m/%d/%Y"@) {
        Some((y, m, d)) => formatted_date(y, m, d, "%Y-%m-%d"@),
        None => s,
    }
}

/// The canonical day key of a raw date field.
pub open spec fn normalized(s: Seq<char>) -> Seq<char> {
    reformatted(before_first_space(s))
}

impl GameData {
    /// A copy of the sample, field for field.
    pub fn copy(&self) -> (r: GameData)
        ensures
            r == *self,
    {
        GameData { date: self.date.clone(), active_users: self.active_users, title: self.title.clone() }
    }

    /// Keeps the samples whose title equals `game_name` regardless of case.
    pub fn filter_by_game_name(games: Vec<GameData>, game_name: &str) -> (r: Vec<GameData>)
        ensures
            r@ == with_title(games@, game_name@),
    {
        let folded_name = lowercase(game_name);
        let n = games.len();
        let mut kept: Vec<GameData> = Vec::new();
        let mut i: usize = 0;
        while i < n
            invariant
                n == games.len(),
                folded_name@ == lower_of(game_name@),
                i <= n,
                kept@ == with_title(games@.subrange(0, i as int), game_name@),
            decreases n - i,
        {
            let g = &games[i];
            let folded_title = lowercase(g.title.as_str());
            assert(games@.subrange(0, i + 1).drop_last() =~= games@.subrange(0, i as int));
            if same_folded(&folded_title, &folded_name) {
                kept.push(g.copy());
            }
            i = i + 1;
        }
        assert(games@.subrange(0, n as int) =~= games@);
        kept
    }

    /// Cuts the date field at its first space, dropping any time of day.
    pub fn date_only(&mut self)
        ensures
            final(self).date@ == before_first_space(old(self).date@),
            final(self).active_users == old(self).active_users,
            final(self).title == old(self).title,
    {
        self.date = cut_at_space(self.date.as_str());
    }

    /// Rewrites a `MM/DD/YYYY` date field as `YYYY-MM-DD`; leaves any other as it is.
    pub fn format_date(&mut self)
        ensures
            final(self).date@ == reformatted(old(self).date@),
            final(self).active_users == old(self).active_users,
            final(self).title == old(self).title,
    {
        match parse_date(self.date.as_str(), "%m/%d/%Y") {
            Some(d) => {
                self.date = format_date_as(d, "%Y-%m-%d");
            },
            None => {},
        }
    }

    /// Brings the date field to its canonical day key.
    pub fn normalize(&mut self)
        ensures
            final(self).date@ == normalized(old(self).date@),
            final(self).active_users == old(self).active_users,
            final(self).title == old(self).title,
    {
        self.date_only();
        self.format_date();
    }
}

} // verus!
