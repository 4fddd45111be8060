//! The driver: what is configured at startup, and what each tick asks for.

use vstd::prelude::*;
use vstd::string::StrSliceExecFns;
use vstd::string::StringExecFns;
use crate::instant::Instant;
use crate::messages::DownloadSymbolMessage;

verus! {

/// The pieces of a text between its commas. A text without a comma is one
/// piece, and so is the empty text; two commas in a row hold an empty piece.
pub open spec fn split_at_commas(text: Seq<char>) -> Seq<Seq<char>>
    decreases text.len(),
{
    if text.len() == 0 {
        seq![Seq::<char>::empty()]
    } else {
        let before = split_at_commas(text.drop_last());
        if text.last() == ',' {
            before.push(Seq::<char>::empty())
        } else {
            before.drop_last().push(before.last().push(text.last()))
        }
    }
}

/// The pieces, put together again with a comma between each two.
pub open spec fn joined_with_commas(pieces: Seq<Seq<char>>) -> Seq<char>
    decreases pieces.len(),
{
    if pieces.len() == 0 {
        Seq::<char>::empty()
    } else if pieces.len() == 1 {
        pieces[0]
    } else {
        joined_with_commas(pieces.drop_last()) + seq![','] + pieces.last()
    }
}

/// The texts of the strings.
pub open spec fn texts(strings: Seq<String>) -> Seq<Seq<char>> {
    Seq::new(strings.len(), |i: int| strings[i]@)
}

/// Splitting gives at least one piece, no piece holds a comma, and the
/// pieces joined with commas are the text again.
pub proof fn lemma_split_at_commas(text: Seq<char>)
    ensures
        split_at_commas(text).len() >= 1,
        forall|i: int, j: int|
            0 <= i < split_at_commas(text).len() && 0 <= j < split_at_commas(text)[i].len()
                ==> #[trigger] split_at_commas(text)[i][j] != ',',
        joined_with_commas(split_at_commas(text)) == text,
    decreases text.len(),
{
    let pieces = split_at_commas(text);
    if text.len() == 0 {
        assert(joined_with_commas(pieces) == text);
    } else {
        let before = split_at_commas(text.drop_last());
        lemma_split_at_commas(text.drop_last());
        if text.last() == ',' {
            assert(pieces.drop_last() == before);
            assert(joined_with_commas(pieces) == text.drop_last() + seq![','] + Seq::<char>::empty());
            assert(text.drop_last() + seq![','] + Seq::<char>::empty() == text);
        } else {
            let grown = before.last().push(text.last());
            assert(pieces.last() == grown);
            assert(pieces.drop_last() == before.drop_last());
            assert forall|i: int, j: int|
                0 <= i < pieces.len() && 0 <= j < pieces[i].len() implies #[trigger] pieces[i][j]
                != ',' by {
                if i < pieces.len() - 1 {
                    assert(pieces[i] == before[i]);
                } else if j < before.last().len() {
                    assert(pieces[i][j] == before.last()[j]);
                }
            }
            if before.len() == 1 {
                assert(joined_with_commas(before) == before[0]);
                assert(joined_with_commas(pieces) == grown);
                assert(grown == text);
            } else {
                assert(joined_with_commas(before) == joined_with_commas(before.drop_last()) + seq![
                    ',',
                ] + before.last());
                assert(joined_with_commas(pieces) == joined_with_commas(before.drop_last()) + seq![
                    ',',
                ] + grown);
                assert(joined_with_commas(before.drop_last()) + seq![','] + grown == (
                joined_with_commas(before.drop_last()) + seq![','] + before.last()).push(
                    text.last(),
                ));
                assert(text.drop_last().push(text.last()) == text);
            }
        }
    }
}

/// The symbols of a comma-separated list, in the order of the list.
pub fn split_symbols(list: &str) -> (symbols: Vec<String>)
    ensures
        texts(symbols@) == split_at_commas(list@),
{
    let n = list.unicode_len();
    let mut symbols: Vec<String> = Vec::new();
    let mut start: usize = 0;
    let mut i: usize = 0;
    assert(list@.take(0).len() == 0);
    assert(list@.subrange(0, 0) == Seq::<char>::empty());
    while i < n
        invariant
            n == list@.len(),
            start <= i <= n,
            split_at_commas(list@.take(i as int)) == texts(symbols@).push(
                list@.subrange(start as int, i as int),
            ),
        decreases n - i,
    {
        let c = list.get_char(i);
        let ghost seen = list@.take(i as int);
        let ghost next = list@.take(i + 1);
        let ghost open = list@.subrange(start as int, i as int);
        assert(next.drop_last() == seen);
        assert(next.last() == c);
        assert(texts(symbols@).push(open).drop_last() == texts(symbols@));
        if c == ',' {
            let piece = String::from_str(list.substring_char(start, i));
            let ghost earlier = symbols@;
            symbols.push(piece);
            assert(texts(symbols@) == texts(earlier).push(open));
            start = i + 1;
            assert(list@.subrange(start as int, i + 1) == Seq::<char>::empty());
        } else {
            assert(open.push(c) == list@.subrange(start as int, i + 1));
        }
        i += 1;
    }
    assert(list@.take(n as int) == list@);
    let piece = String::from_str(list.substring_char(start, n));
    let ghost earlier = symbols@;
    symbols.push(piece);
    assert(texts(symbols@) == texts(earlier).push(list@.subrange(start as int, n as int)));
    symbols
}

/// The seconds between two ticks.
pub const TICK_SECONDS: u64 = 1;

/// The symbols that are watched where none are named.
pub fn default_symbols() -> (list: String)
    ensures
        list@ == "AAPL,MSFT,UBER,GOOG"@,
{
    String::from_str("AAPL,MSFT,UBER,GOOG")
}

/// Why the driver could not be set up.
#[derive(Clone, Copy, Debug, PartialEq, Eq, Structural)]
pub enum ConfigError {
    /// The start of the window is not a date and time in RFC 3339 form.
    InvalidFrom,
}

/// What is fixed at startup: the symbols, in the order in which they were
/// named, and the window `[from, to)` that every tick asks for.
#[derive(Clone, Debug)]
pub struct Driver {
    pub symbols: Vec<String>,
    pub from: Instant,
    pub to: Instant,
}

impl Driver {
    /// Sets the driver up from the comma-separated list of symbols, the start
    /// of the window in RFC 3339 form, and the time of startup, which ends
    /// the window. A start that cannot be read is an error.
    pub fn new(symbols: &str, from: &str, now: Instant) -> (r: Result<Driver, ConfigError>)
        ensures
            match Instant::parsed(from@) {
                Some(start) => r matches Ok(driver) && texts(driver.symbols@) == split_at_commas(
                    symbols@,
                ) && driver.from == start && driver.to == now && start.rfc3339() is Some,
                None => r == Err::<Driver, ConfigError>(ConfigError::InvalidFrom),
            },
    {
        match Instant::parse(from) {
            Some(start) => Ok(Driver { symbols: split_symbols(symbols), from: start, to: now }),
            None => Err(ConfigError::InvalidFrom),
        }
    }

    /// The requests of one tick: one for each symbol, in the order of the
    /// symbols, each for the window fixed at startup.
    pub fn tick(&self) -> (requests: Vec<DownloadSymbolMessage>)
        ensures
            requests@.len() == self.symbols@.len(),
            forall|i: int|
                0 <= i < requests@.len() ==> (#[trigger] requests@[i]).symbol@ == self.symbols@[i]@
                    && requests@[i].from == self.from && requests@[i].to == self.to,
    {
        let n = self.symbols.len();
        let mut requests: Vec<DownloadSymbolMessage> = Vec::with_capacity(n);
        let mut i: usize = 0;
        while i < n
            invariant
                n == self.symbols@.len(),
                i <= n,
                requests@.len() == i,
                forall|j: int|
                    0 <= j < i ==> (#[trigger] requests@[j]).symbol@ == self.symbols@[j]@
                        && requests@[j].from == self.from && requests@[j].to == self.to,
            decreases n - i,
        {
            requests.push(
                DownloadSymbolMessage {
                    symbol: self.symbols[i].clone(),
                    from: self.from,
                    to: self.to,
                },
            );
            i += 1;
        }
        requests
    }
}

} // verus!
