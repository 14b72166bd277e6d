//! Finding the most recent use among the access keys of a user.

use vstd::prelude::*;

verus! {

/// An instant: seconds since the epoch and the nanoseconds past that second.
#[derive(Clone, Copy, Debug, PartialEq, Eq)]
pub struct Timestamp {
    pub seconds: i64,
    pub subsecond_nanos: u32,
}

impl Timestamp {
    /// The instant in nanoseconds since the epoch.
    pub open spec fn nanos(self) -> int {
        self.seconds * 1_000_000_000 + self.subsecond_nanos
    }

    /// Whether this instant is later than the other.
    pub fn is_after(&self, other: &Timestamp) -> (later: bool)
        ensures
            later == (self.nanos() > other.nanos()),
    {
        let mine: i128 = (self.seconds as i128) * 1_000_000_000 + (self.subsecond_nanos as i128);
        let theirs: i128 = (other.seconds as i128) * 1_000_000_000 + (other.subsecond_nanos as i128);
        mine > theirs
    }
}

/// When, where and for what an access key was last used.
#[derive(Debug)]
pub struct KeyUse {
    pub last_used_date: Option<Timestamp>,
    pub service_name: String,
    pub region: String,
}

/// A key use as a mathematical value.
pub struct KeyUseView {
    pub last_used_date: Option<Timestamp>,
    pub service_name: Seq<char>,
    pub region: Seq<char>,
}

impl View for KeyUse {
    type V = KeyUseView;

    open spec fn view(&self) -> KeyUseView {
        KeyUseView {
            last_used_date: self.last_used_date,
            service_name: self.service_name@,
            region: self.region@,
        }
    }
}

/// What asking for the last use of one key brought back.
#[derive(Debug)]
pub enum Lookup {
    /// The request failed.
    Failed,
    /// The request was answered, with or without a record of use.
    Answered(Option<KeyUse>),
}

/// A lookup as a mathematical value.
pub enum LookupView {
    Failed,
    Answered(Option<KeyUseView>),
}

/// The record of an optional key use as a mathematical value.
pub open spec fn use_of(held: Option<KeyUse>) -> Option<KeyUseView> {
    match held {
        Some(u) => Some(u@),
        None => None,
    }
}

impl View for Lookup {
    type V = LookupView;

    open spec fn view(&self) -> LookupView {
        match self {
            Lookup::Failed => LookupView::Failed,
            Lookup::Answered(held) => LookupView::Answered(use_of(*held)),
        }
    }
}

/// How a scan over the keys of a user goes on after one lookup.
#[derive(Debug)]
pub enum Scan {
    /// A request failed: the scan ends without an answer.
    GiveUp,
    /// The scan goes on, with the most recent use seen so far.
    Carry(Option<KeyUse>),
}

/// A scan state as a mathematical value.
pub enum ScanView {
    GiveUp,
    Carry(Option<KeyUseView>),
}

impl View for Scan {
    type V = ScanView;

    open spec fn view(&self) -> ScanView {
        match self {
            Scan::GiveUp => ScanView::GiveUp,
            Scan::Carry(held) => ScanView::Carry(use_of(*held)),
        }
    }
}

/// Whether a kept use carries the date by which it is compared.
pub open spec fn dated(saved: Option<KeyUseView>) -> bool {
    saved.is_some() ==> saved.unwrap().last_used_date.is_some()
}

/// The state after one lookup: a failed request ends the scan; an answer
/// without a date changes nothing; a dated use is kept when it is the first
/// or strictly later than the one kept so far.
pub open spec fn scan_step(saved: Option<KeyUseView>, lookup: LookupView) -> ScanView {
    match lookup {
        LookupView::Failed => ScanView::GiveUp,
        LookupView::Answered(None) => ScanView::Carry(saved),
        LookupView::Answered(Some(used)) => match (used.last_used_date, saved) {
            (None, _) => ScanView::Carry(saved),
            (Some(_), None) => ScanView::Carry(Some(used)),
            (Some(when), Some(kept)) => if when.nanos() > kept.last_used_date.unwrap().nanos() {
                ScanView::Carry(Some(used))
            } else {
                ScanView::Carry(saved)
            },
        },
    }
}

/// Takes one lookup into the scan.
pub fn note_lookup(saved: Option<KeyUse>, lookup: Lookup) -> (next: Scan)
    requires
        dated(use_of(saved)),
    ensures
        next@ == scan_step(use_of(saved), lookup@),
        next@ matches ScanView::Carry(kept) ==> dated(kept),
{
    match lookup {
        Lookup::Failed => Scan::GiveUp,
        Lookup::Answered(None) => Scan::Carry(saved),
        Lookup::Answered(Some(used)) => {
            match used.last_used_date {
                None => Scan::Carry(saved),
                Some(when) => {
                    match saved {
                        None => Scan::Carry(Some(used)),
                        Some(kept) => {
                            let newer = match kept.last_used_date {
                                Some(before) => when.is_after(&before),
                                None => true,
                            };
                            if newer {
                                Scan::Carry(Some(used))
                            } else {
                                Scan::Carry(Some(kept))
                            }
                        },
                    }
                },
            }
        },
    }
}

/// The answer of a whole scan: none when a request failed, else the use kept
/// after the last lookup.
pub open spec fn scan_all(saved: Option<KeyUseView>, lookups: Seq<LookupView>) -> Option<KeyUseView>
    decreases lookups.len(),
{
    if lookups.len() == 0 {
        saved
    } else {
        match scan_step(saved, lookups.first()) {
            ScanView::GiveUp => None,
            ScanView::Carry(kept) => scan_all(kept, lookups.drop_first()),
        }
    }
}

/// The date that a lookup brought, where it brought one.
pub open spec fn date_of(lookup: LookupView) -> Option<Timestamp> {
    match lookup {
        LookupView::Answered(Some(used)) => used.last_used_date,
        _ => None,
    }
}

/// A failed request anywhere leaves the scan without an answer.
pub proof fn law_scan_failure(saved: Option<KeyUseView>, lookups: Seq<LookupView>, i: int)
    requires
        0 <= i < lookups.len(),
        lookups[i] == LookupView::Failed,
    ensures
        scan_all(saved, lookups).is_none(),
    decreases lookups.len(),
{
    if i > 0 {
        match scan_step(saved, lookups.first()) {
            ScanView::GiveUp => {},
            ScanView::Carry(kept) => {
                assert(lookups.drop_first()[i - 1] == lookups[i]);
                law_scan_failure(kept, lookups.drop_first(), i - 1);
            },
        }
    }
}

/// Where no request fails, the answer is the use kept at the start or one of
/// the dated uses looked up, and none of these is more recent than it.
pub proof fn law_scan_latest(saved: Option<KeyUseView>, lookups: Seq<LookupView>)
    requires
        dated(saved),
        forall|i: int| 0 <= i < lookups.len() ==> lookups[i] != LookupView::Failed,
    ensures
        dated(scan_all(saved, lookups)),
        scan_all(saved, lookups) == saved || exists|i: int|
            0 <= i < lookups.len() && lookups[i] == LookupView::Answered(scan_all(saved, lookups)),
        saved.is_some() ==> scan_all(saved, lookups).is_some() && scan_all(
            saved,
            lookups,
        ).unwrap().last_used_date.unwrap().nanos() >= saved.unwrap().last_used_date.unwrap().nanos(),
        forall|i: int|
            0 <= i < lookups.len() && date_of(#[trigger] lookups[i]).is_some() ==> scan_all(
                saved,
                lookups,
            ).is_some() && scan_all(saved, lookups).unwrap().last_used_date.unwrap().nanos()
                >= date_of(lookups[i]).unwrap().nanos(),
    decreases lookups.len(),
{
    if lookups.len() > 0 {
        let rest = lookups.drop_first();
        assert(lookups[0] != LookupView::Failed);
        match scan_step(saved, lookups.first()) {
            ScanView::GiveUp => {},
            ScanView::Carry(kept) => {
                assert forall|i: int| 0 <= i < rest.len() implies rest[i] != LookupView::Failed by {
                    assert(rest[i] == lookups[i + 1]);
                }
                law_scan_latest(kept, rest);
                let answer = scan_all(saved, lookups);
                if answer != saved {
                    if answer == kept {
                        assert(lookups[0] == LookupView::Answered(answer));
                    } else {
                        let at = choose|at: int| 0 <= at < rest.len() && rest[at]
                            == LookupView::Answered(answer);
                        assert(lookups[at + 1] == LookupView::Answered(answer));
                    }
                }
                assert forall|i: int|
                    0 <= i < lookups.len() && date_of(#[trigger] lookups[i]).is_some()
                        implies answer.is_some()
                    && answer.unwrap().last_used_date.unwrap().nanos() >= date_of(
                    lookups[i],
                ).unwrap().nanos() by {
                    if i > 0 {
                        assert(rest[i - 1] == lookups[i]);
                    }
                }
            },
        }
    }
}

/// The name under which a user is reported: its own, or a stand-in.
pub fn user_label(user_name: &Option<String>) -> (label: String)
    ensures
        label@ == (match user_name {
            Some(name) => name@,
            None => "noname"@,
        }),
{
    match user_name {
        Some(name) => name.clone(),
        None => "noname".to_owned(),
    }
}

} // verus!
