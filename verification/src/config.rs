use vstd::prelude::*;
use crate::duration::{
    chrono_try_days, chrono_try_hours, chrono_try_weeks, span_of_seconds, Duration,
    SECONDS_PER_DAY, SECONDS_PER_HOUR, SECONDS_PER_WEEK,
};
use crate::errors::{ParseChannelConfigError, ParseError};
use crate::policy::RetentionPolicy;
use crate::text::{chars_of, parse_i64, read_i64, split, split_pieces, Piece};
use vstd::string::StrSliceExecFns;

verus! {

/// The seconds in the unit that the suffix `c` names: `h`, `d` or `w`.
pub open spec fn unit_seconds(c: char) -> Option<int> {
    if c == 'h' {
        Some(SECONDS_PER_HOUR as int)
    } else if c == 'd' {
        Some(SECONDS_PER_DAY as int)
    } else if c == 'w' {
        Some(SECONDS_PER_WEEK as int)
    } else {
        None
    }
}

/// The milliseconds that the duration token `token` stands for: a number and
/// a unit. The unit is looked at before the number.
pub open spec fn parse_duration(token: Seq<char>) -> Result<int, ParseError> {
    if token.len() == 0 {
        Err(ParseError::Config(ParseChannelConfigError::NoDuration))
    } else {
        match unit_seconds(token.last()) {
            None => Err(
                ParseError::Config(ParseChannelConfigError::InvalidDurationSuffix(token.last())),
            ),
            Some(unit) => match parse_i64(token.drop_last()) {
                None => Err(ParseError::InvalidNumber),
                Some(count) => match span_of_seconds(count * unit) {
                    None => Err(ParseError::DurationOutOfRange),
                    Some(millis) => Ok(millis),
                },
            },
        }
    }
}

/// The name and the milliseconds of the entry `entry`, which must be exactly
/// a name, a colon and a duration token.
pub open spec fn parse_entry(entry: Seq<char>) -> Result<(Seq<char>, int), ParseError> {
    let parts = split(entry, ':');
    if parts.len() != 2 {
        Err(ParseError::Config(ParseChannelConfigError::InvalidFormat))
    } else {
        match parse_duration(parts[1]) {
            Err(e) => Err(e),
            Ok(millis) => Ok((parts[0], millis)),
        }
    }
}

/// The table that `entries` build, taken in order: a later entry replaces an
/// earlier one of the same name, and the first entry in error decides the error.
pub open spec fn parse_entries(entries: Seq<Seq<char>>) -> Result<Map<Seq<char>, int>, ParseError>
    decreases entries.len(),
{
    if entries.len() == 0 {
        Ok(Map::empty())
    } else {
        match parse_entries(entries.drop_last()) {
            Err(e) => Err(e),
            Ok(table) => match parse_entry(entries.last()) {
                Err(e) => Err(e),
                Ok((name, millis)) => Ok(table.insert(name, millis)),
            },
        }
    }
}

/// The table that the policy string `input` spells out: entries separated by
/// commas, each a name, a colon and a duration.
pub open spec fn parse_policy(input: Seq<char>) -> Result<Map<Seq<char>, int>, ParseError> {
    parse_entries(split(input, ','))
}

proof fn lemma_error_stays(entries: Seq<Seq<char>>, n: int)
    requires
        0 <= n <= entries.len(),
        parse_entries(entries.take(n)) is Err,
    ensures
        parse_entries(entries) == parse_entries(entries.take(n)),
    decreases entries.len() - n,
{
    if n == entries.len() {
        assert(entries.take(n) =~= entries);
    } else {
        assert(entries.take(n + 1).drop_last() =~= entries.take(n));
        lemma_error_stays(entries, n + 1);
    }
}

fn read_duration(chars: &Vec<char>, token: Piece) -> (result: Result<Duration, ParseError>)
    requires
        token.start <= token.end <= chars@.len(),
    ensures
        match result {
            Ok(d) => parse_duration(chars@.subrange(token.start as int, token.end as int)) == Ok::<
                int,
                ParseError,
            >(d@),
            Err(e) => parse_duration(chars@.subrange(token.start as int, token.end as int)) == Err::<
                int,
                ParseError,
            >(e),
        },
{
    let ghost text = chars@.subrange(token.start as int, token.end as int);
    if token.start == token.end {
        return Err(ParseError::Config(ParseChannelConfigError::NoDuration));
    }
    let suffix = chars[token.end - 1];
    proof {
        assert(text.drop_last() =~= chars@.subrange(token.start as int, token.end - 1));
    }
    if suffix != 'h' && suffix != 'd' && suffix != 'w' {
        return Err(ParseError::Config(ParseChannelConfigError::InvalidDurationSuffix(suffix)));
    }
    let count = match read_i64(chars, token.start, token.end - 1) {
        Some(count) => count,
        None => {
            return Err(ParseError::InvalidNumber);
        },
    };
    let span = if suffix == 'h' {
        chrono_try_hours(count)
    } else if suffix == 'd' {
        chrono_try_days(count)
    } else {
        chrono_try_weeks(count)
    };
    match span {
        Some(d) => Ok(d),
        None => Err(ParseError::DurationOutOfRange),
    }
}

/// Builds the retention policy that `input` spells out: entries separated by
/// commas, each of them a channel name (or `*` for all other channels), a
/// colon, and a whole number followed by `h`, `d` or `w`.
pub fn parse_channel_retention(input: String) -> (result: Result<RetentionPolicy, ParseError>)
    ensures
        match result {
            Ok(policy) => policy.well_formed() && parse_policy(input@) == Ok::<
                Map<Seq<char>, int>,
                ParseError,
            >(policy@),
            Err(e) => parse_policy(input@) == Err::<Map<Seq<char>, int>, ParseError>(e),
        },
{
    let text = input.as_str();
    let chars = chars_of(text);
    let entries = split_pieces(&chars, ',', 0, chars.len());
    let ghost all = split(input@, ',');
    proof {
        assert(chars@.subrange(0, chars@.len() as int) =~= input@);
    }
    let mut policy = RetentionPolicy::new();
    let mut k: usize = 0;
    while k < entries.len()
        invariant
            k <= entries@.len(),
            chars@ == input@,
            text@ == input@,
            all == split(input@, ','),
            entries@.len() == all.len(),
            forall|j: int|
                0 <= j < entries@.len() ==> (#[trigger] entries@[j]).start <= entries@[j].end
                    <= chars@.len(),
            forall|j: int|
                0 <= j < entries@.len() ==> chars@.subrange(
                    (#[trigger] entries@[j]).start as int,
                    entries@[j].end as int,
                ) == all[j],
            policy.well_formed(),
            parse_entries(all.take(k as int)) == Ok::<Map<Seq<char>, int>, ParseError>(policy@),
        decreases entries@.len() - k,
    {
        let entry = entries[k];
        proof {
            assert(all.take(k + 1).drop_last() =~= all.take(k as int));
        }
        let parts = split_pieces(&chars, ':', entry.start, entry.end);
        if parts.len() != 2 {
            proof {
                lemma_error_stays(all, k + 1);
            }
            return Err(ParseError::Config(ParseChannelConfigError::InvalidFormat));
        }
        let name_part = parts[0];
        let duration_part = parts[1];
        match read_duration(&chars, duration_part) {
            Err(e) => {
                proof {
                    lemma_error_stays(all, k + 1);
                }
                return Err(e);
            },
            Ok(max_age) => {
                let name = text.substring_char(name_part.start, name_part.end).to_owned();
                policy.insert(name, max_age);
            },
        }
        k += 1;
    }
    proof {
        assert(all.take(k as int) =~= all);
    }
    Ok(policy)
}

} // verus!
