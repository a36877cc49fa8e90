//! The state behind the settings window: the listen port and targets being
//! edited, their validation, unsaved-change tracking and the forwarder status.
use vstd::prelude::*;
use vstd::string::StringExecFns;
use crate::address::{address_problem, problem_text, target_address_problem, problem_message};
use crate::config::{pairs_view, Config, ConfigModel};
use crate::text::{
    append_chars, chars_of, decimal, decimal_chars, parse_u16, parse_u16_chars, signed_decimal,
    signed_decimal_string,
};

verus! {

/// One row of the target list.
pub struct ForwardTarget {
    pub address: String,
    pub note: String,
    /// The validation message for the address; empty when it is fine.
    pub validation_error: String,
    /// Whether another row has the same (non-empty) address.
    pub is_duplicate: bool,
}

/// A target row as plain values.
pub struct TargetModel {
    pub address: Seq<char>,
    pub note: Seq<char>,
    pub validation_error: Seq<char>,
    pub is_duplicate: bool,
}

impl View for ForwardTarget {
    type V = TargetModel;

    open spec fn view(&self) -> TargetModel {
        TargetModel {
            address: self.address@,
            note: self.note@,
            validation_error: self.validation_error@,
            is_duplicate: self.is_duplicate,
        }
    }
}

pub open spec fn targets_view(ts: Seq<ForwardTarget>) -> Seq<TargetModel> {
    ts.map_values(|t: ForwardTarget| t@)
}

/// The state of the settings window.
pub struct AppState {
    /// The listen port as typed.
    pub listen_port: String,
    pub targets: Vec<ForwardTarget>,
    pub launch_on_startup: bool,
    pub minimize_to_tray: bool,
    pub has_pending_changes: bool,
    pub has_errors: bool,
    pub error_text: String,
    pub status_text: String,
    pub running: bool,
    pub packets_forwarded: i32,
    pub packets_per_second: i32,
}

/// The edited settings are the same in both states.
pub open spec fn same_settings(a: AppState, b: AppState) -> bool {
    &&& a.listen_port@ == b.listen_port@
    &&& targets_view(a.targets@) == targets_view(b.targets@)
    &&& a.launch_on_startup == b.launch_on_startup
    &&& a.minimize_to_tray == b.minimize_to_tray
}

/// The change tracking and error summary are the same in both states.
pub open spec fn same_checks(a: AppState, b: AppState) -> bool {
    &&& a.has_pending_changes == b.has_pending_changes
    &&& a.has_errors == b.has_errors
    &&& a.error_text@ == b.error_text@
}

/// The forwarder status is the same in both states.
pub open spec fn same_status(a: AppState, b: AppState) -> bool {
    &&& a.status_text@ == b.status_text@
    &&& a.running == b.running
    &&& a.packets_forwarded == b.packets_forwarded
    &&& a.packets_per_second == b.packets_per_second
}

/// The address and note of each row.
pub open spec fn address_note_pairs(ts: Seq<TargetModel>) -> Seq<(Seq<char>, Seq<char>)> {
    ts.map_values(|t: TargetModel| (t.address, t.note))
}

/// Does another row than `i` carry the same non-empty address?
pub open spec fn is_duplicate_at(addresses: Seq<Seq<char>>, i: int) -> bool {
    addresses[i].len() > 0 && exists|j: int| 0 <= j < addresses.len() && j != i && addresses[j] == addresses[i]
}

/// How many rows are marked duplicate.
pub open spec fn count_duplicates(ts: Seq<TargetModel>) -> nat
    decreases ts.len(),
{
    if ts.len() == 0 {
        0
    } else {
        count_duplicates(ts.drop_last()) + if ts.last().is_duplicate { 1nat } else { 0nat }
    }
}

/// How many rows carry a validation message.
pub open spec fn count_invalid(ts: Seq<TargetModel>) -> nat
    decreases ts.len(),
{
    if ts.len() == 0 {
        0
    } else {
        count_invalid(ts.drop_last()) + if ts.last().validation_error.len() > 0 { 1nat } else { 0nat }
    }
}

/// The summary shown under the target list.
pub open spec fn error_summary(ts: Seq<TargetModel>) -> Seq<char> {
    let d = count_duplicates(ts);
    let v = count_invalid(ts);
    if d > 0 && v > 0 {
        "Duplicate and invalid targets found"@
    } else if d > 0 {
        "Duplicate targets found"@
    } else if v > 0 {
        decimal(v) + " invalid target"@ + if v > 1 { "s"@ } else { ""@ }
    } else {
        ""@
    }
}

/// The rows after validation: each address checked (with whether its host is
/// an IPv6 literal) and each duplicate marked; addresses and notes kept.
pub open spec fn validated_rows(ts: Seq<TargetModel>, host_is_ipv6: Seq<bool>) -> Seq<TargetModel> {
    Seq::new(
        ts.len(),
        |i: int|
            TargetModel {
                address: ts[i].address,
                note: ts[i].note,
                validation_error: problem_text(address_problem(ts[i].address, host_is_ipv6[i])),
                is_duplicate: is_duplicate_at(ts.map_values(|t: TargetModel| t.address), i),
            },
    )
}

proof fn lemma_counts_zero(ts: Seq<TargetModel>)
    ensures
        count_duplicates(ts) == 0 <==> forall|i: int| 0 <= i < ts.len() ==> !(#[trigger] ts[i]).is_duplicate,
        count_invalid(ts) == 0 <==> forall|i: int| 0 <= i < ts.len() ==> (#[trigger] ts[i]).validation_error.len() == 0,
    decreases ts.len(),
{
    if ts.len() > 0 {
        let init = ts.drop_last();
        lemma_counts_zero(init);
        assert forall|i: int| 0 <= i < init.len() implies init[i] == ts[i] by {}
    }
}

/// Checks every target: sets each row's validation message and duplicate mark,
/// whether any row has an error, and the summary text. `host_is_ipv6[i]` tells
/// whether the host part of row `i` is an IPv6 literal.
pub fn refresh_target_errors(state: &mut AppState, host_is_ipv6: &[bool])
    requires
        host_is_ipv6@.len() == old(state).targets@.len(),
    ensures
        targets_view(final(state).targets@) == validated_rows(targets_view(old(state).targets@), host_is_ipv6@),
        final(state).targets@.len() == old(state).targets@.len(),
        forall|i: int| 0 <= i < old(state).targets@.len() ==> {
            &&& (#[trigger] final(state).targets@[i]).address@ == old(state).targets@[i].address@
            &&& final(state).targets@[i].note@ == old(state).targets@[i].note@
            &&& final(state).targets@[i].validation_error@ == problem_text(
                address_problem(old(state).targets@[i].address@, host_is_ipv6@[i]),
            )
            &&& final(state).targets@[i].is_duplicate == (old(state).targets@[i].address@.len() > 0
                && exists|j: int|
                0 <= j < old(state).targets@.len() && j != i && #[trigger] old(state).targets@[j].address@
                    == old(state).targets@[i].address@)
        },
        final(state).has_errors == exists|i: int|
            0 <= i < final(state).targets@.len() && ((#[trigger] final(state).targets@[i]).validation_error@.len() > 0
                || final(state).targets@[i].is_duplicate),
        final(state).error_text@ == error_summary(targets_view(final(state).targets@)),
        final(state).listen_port@ == old(state).listen_port@,
        final(state).launch_on_startup == old(state).launch_on_startup,
        final(state).minimize_to_tray == old(state).minimize_to_tray,
        final(state).has_pending_changes == old(state).has_pending_changes,
        same_status(*final(state), *old(state)),
{
    let ghost old_rows = targets_view(state.targets@);
    let ghost addresses = old_rows.map_values(|t: TargetModel| t.address);
    let ghost expected = validated_rows(old_rows, host_is_ipv6@);
    let n = state.targets.len();
    let mut rows: Vec<ForwardTarget> = Vec::new();
    let mut has_errors = false;
    let mut dup_count: usize = 0;
    let mut val_count: usize = 0;
    let mut i: usize = 0;
    while i < n
        invariant
            n == state.targets@.len(),
            n == host_is_ipv6@.len(),
            i <= n,
            old_rows == targets_view(state.targets@),
            addresses == old_rows.map_values(|t: TargetModel| t.address),
            expected == validated_rows(old_rows, host_is_ipv6@),
            targets_view(rows@) == expected.take(i as int),
            has_errors == exists|k: int|
                0 <= k < i && ((#[trigger] expected[k]).validation_error.len() > 0 || expected[k].is_duplicate),
            dup_count == count_duplicates(expected.take(i as int)),
            val_count == count_invalid(expected.take(i as int)),
            dup_count <= i,
            val_count <= i,
        decreases n - i,
    {
        let problem = target_address_problem(state.targets[i].address.as_str(), host_is_ipv6[i]);
        let message = problem_message(problem);
        let is_empty = state.targets[i].address.as_str().is_empty();
        let mut dup = false;
        if !is_empty {
            let mut j: usize = 0;
            while j < n
                invariant
                    n == state.targets@.len(),
                    i < n,
                    j <= n,
                    addresses == targets_view(state.targets@).map_values(|t: TargetModel| t.address),
                    dup == exists|k: int| 0 <= k < j && k != i && addresses[k] == addresses[i as int],
                decreases n - j,
            {
                if j != i && state.targets[j].address == state.targets[i].address {
                    assert(addresses[j as int] == state.targets@[j as int].address@);
                    dup = true;
                }
                proof {
                    assert(addresses[j as int] == state.targets@[j as int].address@);
                    assert(addresses[i as int] == state.targets@[i as int].address@);
                }
                j = j + 1;
            }
        }
        proof {
            assert(addresses[i as int] == state.targets@[i as int].address@);
            assert(dup == is_duplicate_at(addresses, i as int));
        }
        let row = ForwardTarget {
            address: state.targets[i].address.clone(),
            note: state.targets[i].note.clone(),
            validation_error: String::from_str(message),
            is_duplicate: dup,
        };
        let ghost before = targets_view(rows@);
        rows.push(row);
        proof {
            assert(old_rows[i as int] == state.targets@[i as int]@);
            assert(row@ == expected[i as int]);
            assert(targets_view(rows@) =~= before.push(row@));
            assert(expected.take(i + 1) =~= expected.take(i as int).push(expected[i as int]));
            assert(expected.take(i + 1).drop_last() =~= expected.take(i as int));
        }
        if !message.is_empty() {
            val_count = val_count + 1;
        }
        if dup {
            dup_count = dup_count + 1;
        }
        has_errors = has_errors || !message.is_empty() || dup;
        i = i + 1;
    }
    proof {
        assert(expected.take(n as int) =~= expected);
        lemma_counts_zero(expected);
    }
    let error_text = if dup_count > 0 && val_count > 0 {
        String::from_str("Duplicate and invalid targets found")
    } else if dup_count > 0 {
        String::from_str("Duplicate targets found")
    } else if val_count > 0 {
        let digits = decimal_chars(val_count as u64);
        let mut text = String::new();
        append_chars(&mut text, digits.as_slice());
        text.append(" invalid target");
        if val_count > 1 {
            text.append("s");
        }
        proof {
            reveal_strlit("");
            assert(text@ =~= decimal(val_count as nat) + " invalid target"@ + if val_count > 1 {
                "s"@
            } else {
                ""@
            });
        }
        text
    } else {
        String::new()
    };
    state.targets = rows;
    state.has_errors = has_errors;
    state.error_text = error_text;
    proof {
        reveal_strlit("");
        let fin0 = state.targets@;
        assert forall|i: int| 0 <= i < n implies {
            &&& (#[trigger] fin0[i]).address@ == old(state).targets@[i].address@
            &&& fin0[i].note@ == old(state).targets@[i].note@
            &&& fin0[i].validation_error@ == problem_text(
                address_problem(old(state).targets@[i].address@, host_is_ipv6@[i]),
            )
            &&& fin0[i].is_duplicate == (old(state).targets@[i].address@.len() > 0 && exists|j: int|
                0 <= j < old(state).targets@.len() && j != i && #[trigger] old(state).targets@[j].address@
                    == old(state).targets@[i].address@)
        } by {
            assert(targets_view(fin0)[i] == fin0[i]@);
            assert(old_rows[i] == old(state).targets@[i]@);
            if fin0[i].is_duplicate {
                let j = choose|j: int| 0 <= j < addresses.len() && j != i && addresses[j] == addresses[i];
                assert(old_rows[j] == old(state).targets@[j]@);
                assert(old(state).targets@[j].address@ == old(state).targets@[i].address@);
            }
            if old(state).targets@[i].address@.len() > 0 && exists|j: int|
                0 <= j < old(state).targets@.len() && j != i && #[trigger] old(state).targets@[j].address@
                    == old(state).targets@[i].address@ {
                let j = choose|j: int|
                    0 <= j < old(state).targets@.len() && j != i && #[trigger] old(state).targets@[j].address@
                        == old(state).targets@[i].address@;
                assert(old_rows[j] == old(state).targets@[j]@);
                assert(addresses[j] == addresses[i]);
            }
        }
        assert(dup_count == count_duplicates(expected));
        assert(val_count == count_invalid(expected));
        let fin = state.targets@;
        assert(targets_view(fin) == expected);
        assert forall|k: int| 0 <= k < n implies #[trigger] fin[k]@ == expected[k] by {
            assert(targets_view(fin)[k] == fin[k]@);
        }
        if has_errors {
            let k = choose|k: int|
                0 <= k < n && ((#[trigger] expected[k]).validation_error.len() > 0 || expected[k].is_duplicate);
            assert(fin[k]@ == expected[k]);
        } else {
            assert forall|k: int| 0 <= k < fin.len() implies !((#[trigger] fin[k]).validation_error@.len() > 0
                || fin[k].is_duplicate) by {
                assert(fin[k]@ == expected[k]);
            }
        }
    }
}

/// The settings as last saved: the listen port and (address, note) of each target.
pub struct SavedState {
    pub listen_port: String,
    pub targets: Vec<(String, String)>,
}

/// Saved settings as plain values.
pub struct SavedModel {
    pub listen_port: Seq<char>,
    pub targets: Seq<(Seq<char>, Seq<char>)>,
}

impl View for SavedState {
    type V = SavedModel;

    open spec fn view(&self) -> SavedModel {
        SavedModel { listen_port: self.listen_port@, targets: pairs_view(self.targets@) }
    }
}

/// What saving the window's state would record.
pub open spec fn ui_snapshot(state: AppState) -> SavedModel {
    SavedModel {
        listen_port: state.listen_port@,
        targets: address_note_pairs(targets_view(state.targets@)),
    }
}

impl SavedState {
    /// Records the listen port and the targets shown in the window.
    pub fn from_ui(state: &AppState) -> (r: SavedState)
        ensures
            r@ == ui_snapshot(*state),
    {
        let mut targets: Vec<(String, String)> = Vec::new();
        let n = state.targets.len();
        let mut i: usize = 0;
        while i < n
            invariant
                n == state.targets@.len(),
                i <= n,
                pairs_view(targets@) == address_note_pairs(targets_view(state.targets@)).take(i as int),
            decreases n - i,
        {
            let pair = (state.targets[i].address.clone(), state.targets[i].note.clone());
            let ghost before = pairs_view(targets@);
            targets.push(pair);
            assert(pairs_view(targets@) =~= before.push((pair.0@, pair.1@)));
            assert(address_note_pairs(targets_view(state.targets@))[i as int] == (
                state.targets@[i as int].address@,
                state.targets@[i as int].note@,
            ));
            assert(pairs_view(targets@) =~= address_note_pairs(targets_view(state.targets@)).take(i + 1));
            i = i + 1;
        }
        assert(address_note_pairs(targets_view(state.targets@)).take(n as int) =~= address_note_pairs(
            targets_view(state.targets@),
        ));
        SavedState { listen_port: state.listen_port.clone(), targets }
    }

    /// Do the saved settings equal what the window shows (listen port, and the
    /// address and note of every target, in order)?
    pub fn matches_ui(&self, state: &AppState) -> (r: bool)
        ensures
            r == (self@ == ui_snapshot(*state)),
    {
        if self.listen_port != state.listen_port {
            return false;
        }
        let n = self.targets.len();
        if n != state.targets.len() {
            proof {
                assert(self@.targets.len() != ui_snapshot(*state).targets.len());
            }
            return false;
        }
        let ghost shown = ui_snapshot(*state).targets;
        let mut i: usize = 0;
        while i < n
            invariant
                n == self.targets@.len(),
                n == state.targets@.len(),
                i <= n,
                shown == ui_snapshot(*state).targets,
                forall|k: int| 0 <= k < i ==> self@.targets[k] == shown[k],
            decreases n - i,
        {
            assert(shown[i as int] == (state.targets@[i as int].address@, state.targets@[i as int].note@));
            if self.targets[i].0 != state.targets[i].address || self.targets[i].1 != state.targets[i].note {
                return false;
            }
            i = i + 1;
        }
        assert(self@.targets =~= shown);
        true
    }
}

/// Marks whether the window differs from the saved settings; changes nothing else.
pub fn check_pending_changes(state: &mut AppState, saved: &SavedState)
    ensures
        final(state).has_pending_changes == !(saved@ == ui_snapshot(*old(state))),
        same_settings(*final(state), *old(state)),
        final(state).has_errors == old(state).has_errors,
        final(state).error_text@ == old(state).error_text@,
        same_status(*final(state), *old(state)),
{
    let matches = saved.matches_ui(state);
    state.has_pending_changes = !matches;
}

/// The laws of change tracking: the window never differs from a snapshot of
/// itself, and it differs from saved settings exactly when the snapshot does.
pub proof fn snapshot_has_no_pending_changes(state: AppState, saved: SavedModel)
    ensures
        ui_snapshot(state) == ui_snapshot(state),
        (saved == ui_snapshot(state)) <==> (saved.listen_port == state.listen_port@ && saved.targets
            == address_note_pairs(targets_view(state.targets@))),
{
}

/// Why the forwarder could not start.
pub enum StartFailure {
    /// The address resolved to no socket address.
    Unresolved(String),
    /// The address could not be resolved at all.
    InvalidTarget(String),
    /// There is no target.
    NoTargets,
    /// The listen socket could not be bound; the reason as the system gives it.
    BindFailed(String),
}

/// The status line for a start failure.
pub open spec fn start_failure_text(f: StartFailure) -> Seq<char> {
    match f {
        StartFailure::Unresolved(a) => "Could not resolve: "@ + a@,
        StartFailure::InvalidTarget(a) => "Invalid target: "@ + a@,
        StartFailure::NoTargets => "Add at least one target"@,
        StartFailure::BindFailed(e) => "Bind failed: "@ + e@,
    }
}

/// The text of the tray menu's status line.
pub open spec fn tray_text(running: bool, per_second: i32) -> Seq<char> {
    if running {
        "Running — "@ + signed_decimal(per_second as int) + " pkt/s"@
    } else {
        "Stopped"@
    }
}

/// The text of the tray menu's status line: the rate while running, `Stopped` otherwise.
pub fn tray_status_text(running: bool, per_second: i32) -> (r: String)
    ensures
        r@ == tray_text(running, per_second),
{
    if running {
        let mut text = String::from_str("Running — ");
        let rate = signed_decimal_string(per_second);
        text.append(rate.as_str());
        text.append(" pkt/s");
        text
    } else {
        String::from_str("Stopped")
    }
}

/// Refreshing the checks twice gives what refreshing once gives: the checks
/// read only the addresses, which they leave as they are.
pub proof fn refresh_is_idempotent(ts: Seq<TargetModel>, host_is_ipv6: Seq<bool>)
    requires
        host_is_ipv6.len() == ts.len(),
    ensures
        validated_rows(validated_rows(ts, host_is_ipv6), host_is_ipv6) == validated_rows(ts, host_is_ipv6),
{
    let once = validated_rows(ts, host_is_ipv6);
    let twice = validated_rows(once, host_is_ipv6);
    assert(once.map_values(|t: TargetModel| t.address) =~= ts.map_values(|t: TargetModel| t.address));
    assert(twice =~= once);
}

/// Each row's message is the one validating that row's own address, with that
/// row's own IPv6 answer, gives; a row whose address is a hostname or IPv4
/// address with a decimal port is never flagged; a row whose host is none of
/// IPv4, IPv6 (by its own answer) or hostname, with a good port, is flagged
/// with the invalid-host message.
pub proof fn rows_carry_their_address_message(ts: Seq<TargetModel>, host_is_ipv6: Seq<bool>, i: int)
    requires
        host_is_ipv6.len() == ts.len(),
        0 <= i < ts.len(),
    ensures
        validated_rows(ts, host_is_ipv6)[i].validation_error == problem_text(
            address_problem(ts[i].address, host_is_ipv6[i]),
        ),
        validated_rows(ts, host_is_ipv6)[i].address == ts[i].address,
        validated_rows(ts, host_is_ipv6)[i].note == ts[i].note,
        forall|host: Seq<char>, port: u16|
            (crate::address::valid_hostname(host) || crate::address::valid_ipv4(host)) && ts[i].address == host
                + seq![':'] + decimal(port as nat) ==> #[trigger] validated_rows(ts, host_is_ipv6)[i].validation_error.len()
                == 0,
        !host_is_ipv6[i] && ts[i].address.len() > 0 && address_problem(ts[i].address, true) is None && !crate::address::valid_ipv4(
            crate::address::host_part(ts[i].address),
        ) && !crate::address::valid_hostname(crate::address::host_part(ts[i].address))
            ==> validated_rows(ts, host_is_ipv6)[i].validation_error == "Invalid IP address or hostname"@,
{
    assert forall|host: Seq<char>, port: u16|
        (crate::address::valid_hostname(host) || crate::address::valid_ipv4(host)) && ts[i].address == host
            + seq![':'] + decimal(port as nat) implies #[trigger] validated_rows(ts, host_is_ipv6)[i].validation_error.len()
            == 0 by {
        crate::address::host_and_port_are_accepted(host, port, host_is_ipv6[i]);
        reveal_strlit("");
    }
}

/// A row marked duplicate always has a partner: another row, also marked
/// duplicate, with the same address.
pub proof fn duplicates_come_in_pairs(ts: Seq<TargetModel>, host_is_ipv6: Seq<bool>, i: int)
    requires
        host_is_ipv6.len() == ts.len(),
        0 <= i < ts.len(),
        validated_rows(ts, host_is_ipv6)[i].is_duplicate,
    ensures
        exists|j: int|
            0 <= j < ts.len() && j != i && (#[trigger] validated_rows(ts, host_is_ipv6)[j]).is_duplicate
                && validated_rows(ts, host_is_ipv6)[j].address == validated_rows(ts, host_is_ipv6)[i].address,
{
    let rows = validated_rows(ts, host_is_ipv6);
    let addresses = ts.map_values(|t: TargetModel| t.address);
    let j = choose|j: int| 0 <= j < addresses.len() && j != i && addresses[j] == addresses[i];
    assert(is_duplicate_at(addresses, j)) by {
        assert(addresses[i] == addresses[j]);
    }
    assert(rows[j].is_duplicate);
}

/// Whether the window has unsaved changes depends on its settings alone:
/// states with the same settings give the same snapshot. In particular, right
/// after `mark_saved` the window matches what was saved.
pub proof fn pending_changes_follow_settings(a: AppState, b: AppState)
    requires
        same_settings(a, b),
    ensures
        ui_snapshot(a) == ui_snapshot(b),
{
    assert(address_note_pairs(targets_view(a.targets@)) =~= address_note_pairs(targets_view(b.targets@)));
}

/// A fresh row, as the window shows it before any check.
pub open spec fn fresh_row(address: Seq<char>, note: Seq<char>) -> TargetModel {
    TargetModel { address, note, validation_error: Seq::empty(), is_duplicate: false }
}

/// The rows for the targets of a loaded configuration.
pub open spec fn config_rows(c: ConfigModel) -> Seq<TargetModel> {
    c.targets.map_values(|t: (Seq<char>, Seq<char>)| fresh_row(t.0, t.1))
}

fn rows_from_config(config: &Config) -> (r: Vec<ForwardTarget>)
    ensures
        targets_view(r@) == config_rows(config@),
{
    let mut rows: Vec<ForwardTarget> = Vec::new();
    let n = config.targets.len();
    let mut i: usize = 0;
    while i < n
        invariant
            n == config.targets@.len(),
            i <= n,
            targets_view(rows@) == config_rows(config@).take(i as int),
        decreases n - i,
    {
        let row = ForwardTarget {
            address: config.targets[i].0.clone(),
            note: config.targets[i].1.clone(),
            validation_error: String::new(),
            is_duplicate: false,
        };
        let ghost before = targets_view(rows@);
        let ghost row_view = row@;
        rows.push(row);
        assert(targets_view(rows@) =~= before.push(row_view));
        assert(config_rows(config@)[i as int] == row_view);
        assert(targets_view(rows@) =~= config_rows(config@).take(i + 1));
        i = i + 1;
    }
    assert(config_rows(config@).take(n as int) =~= config_rows(config@));
    rows
}

impl AppState {
    /// Shows a loaded configuration: its listen port (in decimal), its targets
    /// with no messages, and both flags.
    pub fn apply_config(&mut self, config: &Config)
        ensures
            final(self).listen_port@ == decimal(config@.listen_port as nat),
            targets_view(final(self).targets@) == config_rows(config@),
            final(self).launch_on_startup == config.launch_on_startup,
            final(self).minimize_to_tray == config.minimize_to_tray,
            same_checks(*final(self), *old(self)),
            same_status(*final(self), *old(self)),
    {
        let digits = decimal_chars(config.listen_port as u64);
        self.listen_port = crate::text::string_from_chars(digits.as_slice());
        self.targets = rows_from_config(config);
        self.launch_on_startup = config.launch_on_startup;
        self.minimize_to_tray = config.minimize_to_tray;
    }

    /// Drops unsaved edits: shows the listen port and targets of the
    /// configuration reloaded from disk (when it could be loaded) and clears
    /// the change mark and the error summary. The flags stay as they are.
    pub fn cancel_changes(&mut self, reloaded: Option<&Config>)
        ensures
            match reloaded {
                Some(c) => final(self).listen_port@ == decimal(c@.listen_port as nat) && targets_view(
                    final(self).targets@,
                ) == config_rows(c@),
                None => final(self).listen_port@ == old(self).listen_port@ && targets_view(
                    final(self).targets@,
                ) == targets_view(old(self).targets@),
            },
            final(self).launch_on_startup == old(self).launch_on_startup,
            final(self).minimize_to_tray == old(self).minimize_to_tray,
            !final(self).has_pending_changes,
            !final(self).has_errors,
            final(self).error_text@ == Seq::<char>::empty(),
            same_status(*final(self), *old(self)),
    {
        match reloaded {
            Some(config) => {
                let digits = decimal_chars(config.listen_port as u64);
                self.listen_port = crate::text::string_from_chars(digits.as_slice());
                self.targets = rows_from_config(config);
            },
            None => {},
        }
        self.has_pending_changes = false;
        self.has_errors = false;
        self.error_text = String::new();
    }

    /// Reads the listen port for starting the forwarder. When it is not a
    /// `u16` the status says so and `None` is returned; nothing else changes.
    pub fn start_listen_port(&mut self) -> (r: Option<u16>)
        ensures
            r == parse_u16(old(self).listen_port@),
            r is None ==> final(self).status_text@ == "Invalid listen port"@,
            r is Some ==> final(self).status_text@ == old(self).status_text@,
            same_settings(*final(self), *old(self)),
            same_checks(*final(self), *old(self)),
            final(self).running == old(self).running,
            final(self).packets_forwarded == old(self).packets_forwarded,
            final(self).packets_per_second == old(self).packets_per_second,
    {
        let chars = chars_of(self.listen_port.as_str());
        let port = parse_u16_chars(chars.as_slice());
        if port.is_none() {
            self.status_text = String::from_str("Invalid listen port");
        }
        port
    }

    /// Shows why the forwarder did not start; nothing else changes.
    pub fn start_failed(&mut self, failure: &StartFailure)
        ensures
            final(self).status_text@ == start_failure_text(*failure),
            same_settings(*final(self), *old(self)),
            same_checks(*final(self), *old(self)),
            final(self).running == old(self).running,
            final(self).packets_forwarded == old(self).packets_forwarded,
            final(self).packets_per_second == old(self).packets_per_second,
    {
        let mut text = String::new();
        match failure {
            StartFailure::Unresolved(address) => {
                text.append("Could not resolve: ");
                text.append(address.as_str());
            },
            StartFailure::InvalidTarget(address) => {
                text.append("Invalid target: ");
                text.append(address.as_str());
            },
            StartFailure::NoTargets => {
                text.append("Add at least one target");
            },
            StartFailure::BindFailed(reason) => {
                text.append("Bind failed: ");
                text.append(reason.as_str());
            },
        }
        self.status_text = text;
    }

    /// The forwarder is listening on `listen_port`: running, counters at zero.
    pub fn started(&mut self, listen_port: u16)
        ensures
            final(self).running,
            final(self).packets_forwarded == 0,
            final(self).packets_per_second == old(self).packets_per_second,
            final(self).status_text@ == "Listening on port "@ + decimal(listen_port as nat),
            same_settings(*final(self), *old(self)),
            same_checks(*final(self), *old(self)),
    {
        let mut text = String::from_str("Listening on port ");
        let digits = decimal_chars(listen_port as u64);
        append_chars(&mut text, digits.as_slice());
        self.running = true;
        self.packets_forwarded = 0;
        self.status_text = text;
    }

    /// A progress report from the receiver: the total (as the window's 32-bit
    /// counter holds it) and the current rate.
    pub fn show_progress(&mut self, total: u64, per_second: i32)
        ensures
            final(self).packets_forwarded == total as i32,
            final(self).packets_per_second == per_second,
            final(self).status_text@ == "Running — "@ + decimal(total as nat) + " packets forwarded"@,
            final(self).running == old(self).running,
            same_settings(*final(self), *old(self)),
            same_checks(*final(self), *old(self)),
    {
        let mut text = String::from_str("Running — ");
        let digits = decimal_chars(total);
        append_chars(&mut text, digits.as_slice());
        text.append(" packets forwarded");
        self.packets_forwarded = total as i32;
        self.packets_per_second = per_second;
        self.status_text = text;
    }

    /// The receiver has stopped.
    pub fn stopped(&mut self)
        ensures
            !final(self).running,
            final(self).status_text@ == "Stopped"@,
            final(self).packets_forwarded == old(self).packets_forwarded,
            final(self).packets_per_second == old(self).packets_per_second,
            same_settings(*final(self), *old(self)),
            same_checks(*final(self), *old(self)),
    {
        self.running = false;
        self.status_text = String::from_str("Stopped");
    }

    /// The settings were written to disk: returns them as the new saved
    /// state, clears the change mark and announces the restart.
    pub fn mark_saved(&mut self) -> (r: SavedState)
        ensures
            r@ == ui_snapshot(*old(self)),
            !final(self).has_pending_changes,
            final(self).status_text@ == "Config saved, restarting..."@,
            same_settings(*final(self), *old(self)),
            final(self).has_errors == old(self).has_errors,
            final(self).error_text@ == old(self).error_text@,
            final(self).running == old(self).running,
            final(self).packets_forwarded == old(self).packets_forwarded,
            final(self).packets_per_second == old(self).packets_per_second,
    {
        let saved = SavedState::from_ui(self);
        self.has_pending_changes = false;
        self.status_text = String::from_str("Config saved, restarting...");
        saved
    }

    /// Appends a new target `127.0.0.1:5300` with an empty note.
    pub fn add_target(&mut self)
        ensures
            targets_view(final(self).targets@) == targets_view(old(self).targets@).push(
                fresh_row("127.0.0.1:5300"@, ""@),
            ),
            final(self).listen_port@ == old(self).listen_port@,
            final(self).launch_on_startup == old(self).launch_on_startup,
            final(self).minimize_to_tray == old(self).minimize_to_tray,
            same_checks(*final(self), *old(self)),
            same_status(*final(self), *old(self)),
    {
        let row = ForwardTarget {
            address: String::from_str("127.0.0.1:5300"),
            note: String::from_str(""),
            validation_error: String::new(),
            is_duplicate: false,
        };
        let ghost before = targets_view(self.targets@);
        self.targets.push(row);
        assert(targets_view(self.targets@) =~= before.push(fresh_row("127.0.0.1:5300"@, ""@)));
    }

    /// Removes the target at `index` when there is one; otherwise changes nothing.
    pub fn remove_target(&mut self, index: i32)
        ensures
            targets_view(final(self).targets@) == if 0 <= index < old(self).targets@.len() {
                targets_view(old(self).targets@).remove(index as int)
            } else {
                targets_view(old(self).targets@)
            },
            final(self).listen_port@ == old(self).listen_port@,
            final(self).launch_on_startup == old(self).launch_on_startup,
            final(self).minimize_to_tray == old(self).minimize_to_tray,
            same_checks(*final(self), *old(self)),
            same_status(*final(self), *old(self)),
    {
        if index >= 0 && (index as usize) < self.targets.len() {
            let ghost before = targets_view(self.targets@);
            let _ = self.targets.remove(index as usize);
            assert(targets_view(self.targets@) =~= before.remove(index as int));
        }
    }

    /// Sets the address of the target at `index` when there is one (its note,
    /// message and mark stay); otherwise changes nothing.
    pub fn set_target_address(&mut self, index: i32, address: String)
        ensures
            targets_view(final(self).targets@) == if 0 <= index < old(self).targets@.len() {
                targets_view(old(self).targets@).update(
                    index as int,
                    TargetModel { address: address@, ..targets_view(old(self).targets@)[index as int] },
                )
            } else {
                targets_view(old(self).targets@)
            },
            final(self).listen_port@ == old(self).listen_port@,
            final(self).launch_on_startup == old(self).launch_on_startup,
            final(self).minimize_to_tray == old(self).minimize_to_tray,
            same_checks(*final(self), *old(self)),
            same_status(*final(self), *old(self)),
    {
        if index >= 0 && (index as usize) < self.targets.len() {
            let i = index as usize;
            let ghost before = targets_view(self.targets@);
            let row = ForwardTarget {
                address,
                note: self.targets[i].note.clone(),
                validation_error: self.targets[i].validation_error.clone(),
                is_duplicate: self.targets[i].is_duplicate,
            };
            let ghost row_view = row@;
            self.targets.set(i, row);
            assert(targets_view(self.targets@) =~= before.update(i as int, row_view));
        }
    }

    /// Sets the note of the target at `index` when there is one (its address,
    /// message and mark stay); otherwise changes nothing.
    pub fn set_target_note(&mut self, index: i32, note: String)
        ensures
            targets_view(final(self).targets@) == if 0 <= index < old(self).targets@.len() {
                targets_view(old(self).targets@).update(
                    index as int,
                    TargetModel { note: note@, ..targets_view(old(self).targets@)[index as int] },
                )
            } else {
                targets_view(old(self).targets@)
            },
            final(self).listen_port@ == old(self).listen_port@,
            final(self).launch_on_startup == old(self).launch_on_startup,
            final(self).minimize_to_tray == old(self).minimize_to_tray,
            same_checks(*final(self), *old(self)),
            same_status(*final(self), *old(self)),
    {
        if index >= 0 && (index as usize) < self.targets.len() {
            let i = index as usize;
            let ghost before = targets_view(self.targets@);
            let row = ForwardTarget {
                address: self.targets[i].address.clone(),
                note,
                validation_error: self.targets[i].validation_error.clone(),
                is_duplicate: self.targets[i].is_duplicate,
            };
            let ghost row_view = row@;
            self.targets.set(i, row);
            assert(targets_view(self.targets@) =~= before.update(i as int, row_view));
        }
    }
}

} // verus!
