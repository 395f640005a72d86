//! The interactive menu: a finite-state protocol that consumes one line of
//! operator input at a time, queries and mutates the encrypted store, and
//! emits structured output effects for a driver to render.

use crate::bounded::ByteBuf;
use crate::configs::{
    find_entry, reset_state, stored_state, wifi_pass_name_bytes, wifi_ssid_name_bytes, ConfigMenu,
};
use vstd::prelude::*;

verus! {

// ------------------------------------------------------------------
// Decimal index parsing (as the select-entry input understands it).
// ------------------------------------------------------------------
/// An ASCII decimal digit.
pub open spec fn is_digit(b: u8) -> bool {
    48 <= b && b <= 57
}

/// The number the digit string `s` denotes.
pub open spec fn digits_val(s: Seq<u8>) -> int
    decreases s.len(),
{
    if s.len() == 0 {
        0
    } else {
        digits_val(s.drop_last()) * 10 + (s.last() - 48)
    }
}

/// The digit part of a decimal string: everything after an optional leading
/// plus sign.
pub open spec fn digits_part(s: Seq<u8>) -> Seq<u8> {
    if s.len() >= 1 && s[0] == 43 {
        s.drop_first()
    } else {
        s
    }
}

/// What parsing `s` as an unsigned machine-width decimal yields: an optional
/// leading plus sign, then one or more digits, and a value that fits;
/// anything else is rejected.
pub open spec fn parse_usize_spec(s: Seq<u8>) -> Option<int> {
    if digits_part(s).len() >= 1 && (forall|k: int|
        0 <= k < digits_part(s).len() ==> is_digit(#[trigger] digits_part(s)[k])) && digits_val(
        digits_part(s),
    ) <= usize::MAX {
        Some(digits_val(digits_part(s)))
    } else {
        None
    }
}

/// A digit string denotes a nonnegative number.
pub proof fn lemma_digits_val_nonneg(s: Seq<u8>)
    requires
        forall|k: int| 0 <= k < s.len() ==> is_digit(#[trigger] s[k]),
    ensures
        digits_val(s) >= 0,
    decreases s.len(),
{
    if s.len() > 0 {
        lemma_digits_val_nonneg(s.drop_last());
    }
}

/// Extending a digit string never shrinks its value.
pub proof fn lemma_digits_val_prefix(s: Seq<u8>, m: int)
    requires
        0 <= m <= s.len(),
        forall|k: int| 0 <= k < s.len() ==> is_digit(#[trigger] s[k]),
    ensures
        digits_val(s.take(m)) <= digits_val(s),
    decreases s.len() - m,
{
    if m < s.len() {
        lemma_digits_val_prefix(s, m + 1);
        assert(s.take(m + 1).drop_last() =~= s.take(m));
        assert(s.take(m + 1).last() == s[m]);
        lemma_digits_val_nonneg(s.take(m));
    } else {
        assert(s.take(m) =~= s);
    }
}

/// Parses an unsigned decimal index, as the entry selector reads one.
pub fn parse_usize(s: &[u8]) -> (r: Option<usize>)
    ensures
        r matches Some(v) ==> parse_usize_spec(s@) == Some(v as int),
        r is None ==> parse_usize_spec(s@) is None,
{
    let len = s.len();
    let start: usize = if len >= 1 && s[0] == 43 {
        1
    } else {
        0
    };
    let ghost d = digits_part(s@);
    proof {
        assert(d =~= s@.skip(start as int));
    }
    if len == start {
        return None;
    }
    let mut val: usize = 0;
    let mut i: usize = start;
    while i < len
        invariant
            start <= i <= len,
            len == s@.len(),
            start <= 1,
            d == s@.skip(start as int),
            d == digits_part(s@),
            d.len() == len - start,
            forall|k: int| 0 <= k < i - start ==> is_digit(#[trigger] d[k]),
            val == digits_val(d.take(i - start)),
        decreases len - i,
    {
        let b = s[i];
        if b < 48 || b > 57 {
            proof {
                assert(0 <= i - start < d.len());
                assert(d[i - start] == s@[i as int]);
                assert(!is_digit(digits_part(s@)[i - start]));
                assert(parse_usize_spec(s@) is None);
            }
            return None;
        }
        let digit = (b - 48) as usize;
        let nv = (val as u128) * 10 + (digit as u128);
        proof {
            assert(d[i - start] == s@[i as int]);
            assert(d.take(i - start + 1).drop_last() =~= d.take(i - start));
            assert(d.take(i - start + 1).last() == d[i - start]);
        }
        if nv > (usize::MAX as u128) {
            proof {
                if forall|k: int| 0 <= k < d.len() ==> is_digit(#[trigger] d[k]) {
                    lemma_digits_val_prefix(d, i - start + 1);
                    assert(digits_val(d.take(i - start + 1)) == 10 * digits_val(d.take(i - start))
                        + (d[i - start] - 48));
                    assert(digits_val(digits_part(s@)) > usize::MAX);
                }
                assert(parse_usize_spec(s@) is None);
            }
            return None;
        }
        val = nv as usize;
        i += 1;
    }
    proof {
        assert(d.take(i - start) =~= d);
        if d.len() >= 1 && (forall|k: int| 0 <= k < d.len() ==> is_digit(#[trigger] d[k]))
            && digits_val(d) <= usize::MAX {
        } else {
            assert(false);
        }
    }
    Some(val)
}

// ------------------------------------------------------------------
// Output effects.
// ------------------------------------------------------------------
/// One item of output the menu asks its driver to render or act on. The
/// driver formats the rendering items for the operator; `Handoff` carries a
/// captured credential pair to the external consumer.
#[derive(Debug, PartialEq, Eq)]
pub enum Effect {
    /// Show the option menu.
    RenderMenu,
    /// One line of the entry listing: a secret entry's value is redacted
    /// (`value` is absent), a plain one shows its decoded value.
    EntryLine { index: usize, name: Vec<u8>, capacity: usize, value: Option<Vec<u8>> },
    /// An entry whose value could not be decoded.
    ReadFailure { name: Vec<u8> },
    /// Announce the value-selection step.
    SelectValuesNote,
    /// Ask for an entry selector.
    SelectPrompt,
    /// Ask for a new value for the resolved entry, showing its prompt.
    UpdatePrompt { name: Vec<u8>, question: Vec<u8> },
    /// The selected target does not name an entry.
    NotFound { name: Vec<u8> },
    /// Ask to confirm the storage reset.
    ConfirmPrompt,
    /// The network identifier could not be read.
    WifiNoSsid,
    /// The network secret could not be read.
    WifiNoPass,
    /// Deliver a captured credential pair.
    Handoff { ssid: Vec<u8>, pass: Vec<u8> },
}

/// The mathematical shape of an `Effect`.
#[verifier::ext_equal]
pub enum EffectV {
    RenderMenu,
    EntryLine { index: int, name: Seq<u8>, capacity: int, value: Option<Seq<u8>> },
    ReadFailure { name: Seq<u8> },
    SelectValuesNote,
    SelectPrompt,
    UpdatePrompt { name: Seq<u8>, question: Seq<u8> },
    NotFound { name: Seq<u8> },
    ConfirmPrompt,
    WifiNoSsid,
    WifiNoPass,
    Handoff { ssid: Seq<u8>, pass: Seq<u8> },
}

impl View for Effect {
    type V = EffectV;

    open spec fn view(&self) -> EffectV {
        match self {
            Effect::RenderMenu => EffectV::RenderMenu,
            Effect::EntryLine { index, name, capacity, value } => EffectV::EntryLine {
                index: *index as int,
                name: name@,
                capacity: *capacity as int,
                value: match value {
                    Option::Some(v) => Option::Some(v@),
                    Option::None => Option::None,
                },
            },
            Effect::ReadFailure { name } => EffectV::ReadFailure { name: name@ },
            Effect::SelectValuesNote => EffectV::SelectValuesNote,
            Effect::SelectPrompt => EffectV::SelectPrompt,
            Effect::UpdatePrompt { name, question } => EffectV::UpdatePrompt {
                name: name@,
                question: question@,
            },
            Effect::NotFound { name } => EffectV::NotFound { name: name@ },
            Effect::ConfirmPrompt => EffectV::ConfirmPrompt,
            Effect::WifiNoSsid => EffectV::WifiNoSsid,
            Effect::WifiNoPass => EffectV::WifiNoPass,
            Effect::Handoff { ssid, pass } => EffectV::Handoff { ssid: ssid@, pass: pass@ },
        }
    }
}

/// The effects a list holds, as their mathematical shapes.
pub open spec fn effs_view(s: Seq<Effect>) -> Seq<EffectV> {
    s.map_values(|e: Effect| e@)
}

// ------------------------------------------------------------------
// The state machine.
// ------------------------------------------------------------------
/// The menu's conversation state. `NewValue` carries the name of the entry
/// the next line will be stored into.
#[derive(Debug)]
pub enum MenuState {
    Idle,
    Menu,
    SelectChange,
    NewValue(Vec<u8>),
    ConfirmingReset,
}

/// The mathematical shape of a `MenuState`.
pub enum MenuStateV {
    Idle,
    Menu,
    SelectChange,
    NewValue(Seq<u8>),
    ConfirmingReset,
}

impl View for MenuState {
    type V = MenuStateV;

    open spec fn view(&self) -> MenuStateV {
        match self {
            MenuState::Idle => MenuStateV::Idle,
            MenuState::Menu => MenuStateV::Menu,
            MenuState::SelectChange => MenuStateV::SelectChange,
            MenuState::NewValue(name) => MenuStateV::NewValue(name@),
            MenuState::ConfirmingReset => MenuStateV::ConfirmingReset,
        }
    }
}

/// What a read of the first entry named `name` decodes to, with an output
/// buffer of capacity `cap`.
pub open spec fn read_by_name(m: ConfigMenu, name: Seq<u8>, cap: nat) -> Option<Seq<u8>> {
    match find_entry(m.all_entries(), name) {
        Option::None => Option::None,
        Option::Some(e) => m.read_result(e, cap),
    }
}

/// One line of the entry listing, for the entry at position `i`: its value is
/// read through name lookup (so an earlier entry with the same name shadows
/// it), shown only when the entry is not secret, with a failed decode
/// reported instead of a value.
pub open spec fn listing_line(m: ConfigMenu, i: int) -> EffectV {
    let e = m.all_entries()[i];
    match read_by_name(m, e.name@, 32) {
        Option::Some(v) => EffectV::EntryLine {
            index: i,
            name: e.name@,
            capacity: 16 * e.n_blocks,
            value: if e.secret {
                Option::None
            } else {
                Option::Some(v)
            },
        },
        Option::None => EffectV::ReadFailure { name: e.name@ },
    }
}

/// The whole entry listing, one line per descriptor in order.
pub open spec fn listing_effects(m: ConfigMenu) -> Seq<EffectV> {
    Seq::new(m.all_entries().len(), |i: int| listing_line(m, i))
}

/// The effects of the connect command: read both credential entries and hand
/// them off; on either failed read, report it and hand nothing off.
pub open spec fn wifi_connect_effects(m: ConfigMenu) -> Seq<EffectV> {
    match read_by_name(m, crate::configs::wifi_ssid_name(), 32) {
        Option::None => seq![EffectV::WifiNoSsid],
        Option::Some(ssid) => match read_by_name(m, crate::configs::wifi_pass_name(), 64) {
            Option::None => seq![EffectV::WifiNoPass],
            Option::Some(pass) => seq![EffectV::Handoff { ssid, pass }],
        },
    }
}

/// The name the selector input resolves to: a decimal number denoting a valid
/// position selects that entry's name; anything else is taken as a name
/// literally.
pub open spec fn select_target(m: ConfigMenu, line: Seq<u8>) -> Seq<u8> {
    match parse_usize_spec(line) {
        Option::Some(i) => if 0 <= i < m.entries@.len() {
            m.entries@[i].name@
        } else {
            line
        },
        Option::None => line,
    }
}

/// The transition table's next state for one line of input in state `s`.
pub open spec fn next_state(s: MenuStateV, m: ConfigMenu, line: Seq<u8>) -> MenuStateV {
    match s {
        MenuStateV::Idle => if line.len() >= 1 && line[0] == 109 {
            MenuStateV::Menu
        } else {
            MenuStateV::Idle
        },
        MenuStateV::Menu => if line == seq![49u8] || line == seq![50u8] || line == seq![53u8] {
            MenuStateV::Menu
        } else if line == seq![51u8] {
            MenuStateV::SelectChange
        } else if line == seq![52u8] {
            MenuStateV::ConfirmingReset
        } else {
            MenuStateV::Idle
        },
        MenuStateV::SelectChange => MenuStateV::NewValue(select_target(m, line)),
        MenuStateV::NewValue(_) => MenuStateV::Menu,
        MenuStateV::ConfirmingReset => MenuStateV::Menu,
    }
}

/// The transition table's rendered output for one line of input in state `s`.
pub open spec fn step_effects(s: MenuStateV, m: ConfigMenu, line: Seq<u8>) -> Seq<EffectV> {
    match s {
        MenuStateV::Idle => if line.len() >= 1 && line[0] == 109 {
            seq![EffectV::RenderMenu]
        } else {
            Seq::empty()
        },
        MenuStateV::Menu => if line == seq![49u8] {
            seq![EffectV::RenderMenu]
        } else if line == seq![50u8] {
            listing_effects(m)
        } else if line == seq![51u8] {
            seq![EffectV::SelectValuesNote]
        } else if line == seq![53u8] {
            wifi_connect_effects(m)
        } else {
            Seq::empty()
        },
        MenuStateV::SelectChange => Seq::empty(),
        MenuStateV::NewValue(_) => Seq::empty(),
        MenuStateV::ConfirmingReset => Seq::empty(),
    }
}

/// The per-state prompt rendered after a transition.
pub open spec fn state_effects(s: MenuStateV, m: ConfigMenu) -> Seq<EffectV> {
    match s {
        MenuStateV::Idle => Seq::empty(),
        MenuStateV::Menu => Seq::empty(),
        MenuStateV::SelectChange => seq![EffectV::SelectPrompt],
        MenuStateV::NewValue(name) => match find_entry(m.all_entries(), name) {
            Option::Some(e) => seq![EffectV::UpdatePrompt { name: e.name@, question: e.question@ }],
            Option::None => seq![EffectV::NotFound { name }],
        },
        MenuStateV::ConfirmingReset => seq![EffectV::ConfirmPrompt],
    }
}

/// Whether typed input must be masked in state `s`: only while a new value is
/// being typed for an entry that is marked secret.
pub open spec fn is_secret_target(s: MenuStateV, m: ConfigMenu) -> bool {
    match s {
        MenuStateV::NewValue(name) => match find_entry(m.all_entries(), name) {
            Option::Some(e) => e.secret,
            Option::None => false,
        },
        _ => false,
    }
}

/// The entry listing as effects: one line per descriptor, with redacted
/// values for secret entries and failures reported per entry.
fn list_entries(menu: &mut ConfigMenu) -> (fx: Vec<Effect>)
    requires
        old(menu).wf(),
    ensures
        *final(menu) == *old(menu),
        effs_view(fx@) == listing_effects(*old(menu)),
{
    let ghost m0 = *menu;
    let mut fx: Vec<Effect> = Vec::new();
    let n = menu.entries.len();
    let mut i: usize = 0;
    while i < n
        invariant
            i <= n,
            n == menu.entries@.len(),
            *menu == m0,
            m0.wf(),
            fx@.len() == i,
            forall|k: int| 0 <= k < i ==> #[trigger] fx@[k]@ == listing_line(m0, k),
        decreases n - i,
    {
        proof {
            assert(m0.all_entries()[i as int] == menu.entries@[i as int]);
        }
        let name = vstd::slice::slice_to_vec(menu.entries[i].name.as_slice());
        let capacity = {
            proof {
                crate::configs::lemma_span_in_layout(m0.all_entries(), i as int);
            }
            let _med_len = menu.medium.len();
            16 * menu.entries[i].n_blocks
        };
        let secret = menu.entries[i].secret;
        let mut buf = ByteBuf::new(32);
        let res = menu.read_entry(name.as_slice(), &mut buf);
        proof {
            crate::configs::lemma_find_entry_some(m0.all_entries(), name@, i as int);
        }
        if res.is_err() {
            fx.push(Effect::ReadFailure { name });
        } else {
            let value = if secret {
                Option::None
            } else {
                Option::Some(buf.into_vec())
            };
            fx.push(Effect::EntryLine { index: i, name, capacity, value });
        }
        proof {
            assert(fx@.last()@ == listing_line(m0, i as int));
        }
        i += 1;
    }
    proof {
        assert(m0.all_entries()[n as int] == menu.wifi_ssid);
        assert(m0.all_entries()[n as int + 1] == menu.wifi_pass);
        assert(m0.all_entries()[n as int + 2] == menu.wifi_autostart);
    }
    let mut j: usize = n;
    // The three built-in entries follow, listed the same way.
    while j < n + 3
        invariant
            n <= j <= n + 3,
            n == menu.entries@.len(),
            n + 3 <= usize::MAX,
            *menu == m0,
            m0.wf(),
            fx@.len() == j,
            forall|k: int| 0 <= k < j ==> #[trigger] fx@[k]@ == listing_line(m0, k),
        decreases n + 3 - j,
    {
        let e: &crate::configs::ConfigEntry = if j == n {
            &menu.wifi_ssid
        } else if j == n + 1 {
            &menu.wifi_pass
        } else {
            &menu.wifi_autostart
        };
        proof {
            assert(m0.all_entries()[j as int] == *e);
        }
        let name = vstd::slice::slice_to_vec(e.name.as_slice());
        let secret = e.secret;
        let nb = e.n_blocks;
        let capacity = {
            proof {
                crate::configs::lemma_span_in_layout(m0.all_entries(), j as int);
            }
            let _med_len = menu.medium.len();
            16 * nb
        };
        let mut buf = ByteBuf::new(32);
        let res = menu.read_entry(name.as_slice(), &mut buf);
        proof {
            crate::configs::lemma_find_entry_some(m0.all_entries(), name@, j as int);
        }
        if res.is_err() {
            fx.push(Effect::ReadFailure { name });
        } else {
            let value = if secret {
                Option::None
            } else {
                Option::Some(buf.into_vec())
            };
            fx.push(Effect::EntryLine { index: j, name, capacity, value });
        }
        proof {
            assert(fx@.last()@ == listing_line(m0, j as int));
        }
        j += 1;
    }
    proof {
        assert forall|k: int| 0 <= k < fx@.len() implies effs_view(fx@)[k] == listing_effects(
            m0,
        )[k] by {
            assert(fx@[k]@ == listing_line(m0, k));
        }
        assert(effs_view(fx@) =~= listing_effects(m0));
    }
    fx
}

impl MenuState {
    /// Consumes one completed line of input: performs the transition table's
    /// store operation, if any, and returns the next state together with the
    /// output effects of the transition.
    pub fn got_line(self, menu: &mut ConfigMenu, line: &[u8]) -> (r: (MenuState, Vec<Effect>))
        requires
            old(menu).wf(),
        ensures
            final(menu).wf(),
            final(menu).entries == old(menu).entries,
            final(menu).wifi_ssid == old(menu).wifi_ssid,
            final(menu).wifi_pass == old(menu).wifi_pass,
            final(menu).wifi_autostart == old(menu).wifi_autostart,
            final(menu).key == old(menu).key,
            r.0@ == next_state(self@, *old(menu), line@),
            effs_view(r.1@) == step_effects(self@, *old(menu), line@),
            (self@ is Idle || self@ is Menu || self@ is SelectChange) ==> *final(menu) == *old(
                menu,
            ),
            self@ matches MenuStateV::NewValue(name) ==> stored_state(
                *old(menu),
                *final(menu),
                name,
                line@,
            ),
            self@ is ConfirmingReset ==> if line@.len() >= 1 && line@[0] == 121 {
                reset_state(*old(menu), *final(menu))
            } else {
                *final(menu) == *old(menu)
            },
    {
        match self {
            MenuState::Idle => {
                let mut fx: Vec<Effect> = Vec::new();
                if line.len() >= 1 && line[0] == 109 {
                    fx.push(Effect::RenderMenu);
                    proof {
                        assert(effs_view(fx@) =~= seq![EffectV::RenderMenu]);
                    }
                    (MenuState::Menu, fx)
                } else {
                    proof {
                        assert(effs_view(fx@) =~= Seq::<EffectV>::empty());
                    }
                    (MenuState::Idle, fx)
                }
            },
            MenuState::Menu => {
                let one = line.len() == 1;
                if one && line[0] == 49 {
                    proof {
                        assert(line@ =~= seq![49u8]);
                    }
                    let mut fx: Vec<Effect> = Vec::new();
                    fx.push(Effect::RenderMenu);
                    proof {
                        assert(effs_view(fx@) =~= seq![EffectV::RenderMenu]);
                    }
                    (MenuState::Menu, fx)
                } else if one && line[0] == 50 {
                    proof {
                        assert(line@ =~= seq![50u8]);
                    }
                    let fx = list_entries(menu);
                    (MenuState::Menu, fx)
                } else if one && line[0] == 51 {
                    proof {
                        assert(line@ =~= seq![51u8]);
                    }
                    let mut fx: Vec<Effect> = Vec::new();
                    fx.push(Effect::SelectValuesNote);
                    proof {
                        assert(effs_view(fx@) =~= seq![EffectV::SelectValuesNote]);
                    }
                    (MenuState::SelectChange, fx)
                } else if one && line[0] == 52 {
                    proof {
                        assert(line@ =~= seq![52u8]);
                    }
                    let fx: Vec<Effect> = Vec::new();
                    proof {
                        assert(effs_view(fx@) =~= Seq::<EffectV>::empty());
                    }
                    (MenuState::ConfirmingReset, fx)
                } else if one && line[0] == 53 {
                    proof {
                        assert(line@ =~= seq![53u8]);
                    }
                    let mut fx: Vec<Effect> = Vec::new();
                    let ssid_name = wifi_ssid_name_bytes();
                    let mut ssid_buf = ByteBuf::new(32);
                    let res = menu.read_entry(ssid_name.as_slice(), &mut ssid_buf);
                    if res.is_err() {
                        fx.push(Effect::WifiNoSsid);
                        proof {
                            assert(effs_view(fx@) =~= seq![EffectV::WifiNoSsid]);
                        }
                        return (MenuState::Menu, fx);
                    }
                    let pass_name = wifi_pass_name_bytes();
                    let mut pass_buf = ByteBuf::new(64);
                    let res = menu.read_entry(pass_name.as_slice(), &mut pass_buf);
                    if res.is_err() {
                        fx.push(Effect::WifiNoPass);
                        proof {
                            assert(effs_view(fx@) =~= seq![EffectV::WifiNoPass]);
                        }
                        return (MenuState::Menu, fx);
                    }
                    let ghost sv = ssid_buf@;
                    let ghost pv = pass_buf@;
                    fx.push(
                        Effect::Handoff { ssid: ssid_buf.into_vec(), pass: pass_buf.into_vec() },
                    );
                    proof {
                        assert(effs_view(fx@) =~= seq![EffectV::Handoff { ssid: sv, pass: pv }]);
                    }
                    (MenuState::Menu, fx)
                } else {
                    let fx: Vec<Effect> = Vec::new();
                    proof {
                        assert(effs_view(fx@) =~= Seq::<EffectV>::empty());
                        assert(line@ != seq![49u8] && line@ != seq![50u8] && line@ != seq![51u8]
                            && line@ != seq![52u8] && line@ != seq![53u8]);
                    }
                    (MenuState::Idle, fx)
                }
            },
            MenuState::SelectChange => {
                let fx: Vec<Effect> = Vec::new();
                proof {
                    assert(effs_view(fx@) =~= Seq::<EffectV>::empty());
                }
                let name: Vec<u8> = match parse_usize(line) {
                    Option::Some(idx) => {
                        match menu.get_entry_index(idx) {
                            Result::Ok(e) => vstd::slice::slice_to_vec(e.name.as_slice()),
                            Result::Err(()) => vstd::slice::slice_to_vec(line),
                        }
                    },
                    Option::None => vstd::slice::slice_to_vec(line),
                };
                (MenuState::NewValue(name), fx)
            },
            MenuState::NewValue(name) => {
                let fx: Vec<Effect> = Vec::new();
                proof {
                    assert(effs_view(fx@) =~= Seq::<EffectV>::empty());
                }
                let _ = menu.store_entry(name.as_slice(), line);
                (MenuState::Menu, fx)
            },
            MenuState::ConfirmingReset => {
                let fx: Vec<Effect> = Vec::new();
                proof {
                    assert(effs_view(fx@) =~= Seq::<EffectV>::empty());
                }
                if line.len() >= 1 && line[0] == 121 {
                    menu.reset_all();
                }
                (MenuState::Menu, fx)
            },
        }
    }

    /// Renders the prompt the current state owes the operator: the entry
    /// selector prompt, the resolved entry's question (or that the selected
    /// target was not found), or the reset confirmation.
    pub fn run_state(&self, menu: &ConfigMenu) -> (fx: Vec<Effect>)
        ensures
            effs_view(fx@) == state_effects(self@, *menu),
    {
        match self {
            MenuState::Idle => {
                let fx: Vec<Effect> = Vec::new();
                proof {
                    assert(effs_view(fx@) =~= Seq::<EffectV>::empty());
                }
                fx
            },
            MenuState::Menu => {
                let fx: Vec<Effect> = Vec::new();
                proof {
                    assert(effs_view(fx@) =~= Seq::<EffectV>::empty());
                }
                fx
            },
            MenuState::SelectChange => {
                let mut fx: Vec<Effect> = Vec::new();
                fx.push(Effect::SelectPrompt);
                proof {
                    assert(effs_view(fx@) =~= seq![EffectV::SelectPrompt]);
                }
                fx
            },
            MenuState::NewValue(name) => {
                let mut fx: Vec<Effect> = Vec::new();
                match menu.get_entry(name.as_slice()) {
                    Result::Ok(e) => {
                        let ename = vstd::slice::slice_to_vec(e.name.as_slice());
                        let question = vstd::slice::slice_to_vec(e.question.as_slice());
                        let ghost nv = ename@;
                        let ghost qv = question@;
                        fx.push(Effect::UpdatePrompt { name: ename, question });
                        proof {
                            assert(effs_view(fx@) =~= seq![
                                EffectV::UpdatePrompt { name: nv, question: qv },
                            ]);
                        }
                    },
                    Result::Err(()) => {
                        let ghost nv = name@;
                        fx.push(Effect::NotFound { name: vstd::slice::slice_to_vec(name.as_slice()) });
                        proof {
                            assert(effs_view(fx@) =~= seq![EffectV::NotFound { name: nv }]);
                        }
                    },
                }
                fx
            },
            MenuState::ConfirmingReset => {
                let mut fx: Vec<Effect> = Vec::new();
                fx.push(Effect::ConfirmPrompt);
                proof {
                    assert(effs_view(fx@) =~= seq![EffectV::ConfirmPrompt]);
                }
                fx
            },
        }
    }

    /// Whether the next typed line must be echoed masked: true exactly while
    /// a new value is being typed for an entry marked secret.
    pub fn secret_echo(&self, menu: &ConfigMenu) -> (r: bool)
        ensures
            r == is_secret_target(self@, *menu),
    {
        if let MenuState::NewValue(name) = self {
            match menu.get_entry(name.as_slice()) {
                Result::Ok(e) => e.secret,
                Result::Err(()) => false,
            }
        } else {
            false
        }
    }
}


/// Masked echo: while a new value is typed for an entry marked secret, every
/// typed byte but the terminator echoes as exactly one mask character; for a
/// non-secret target the typed byte echoes as itself.
pub proof fn lemma_masked_echo(s: MenuStateV, m: ConfigMenu, b: u8)
    requires
        b != 13,
    ensures
        is_secret_target(s, m) ==> crate::line::echo_byte(b, is_secret_target(s, m))
            == crate::line::MASK_CHAR,
        !is_secret_target(s, m) ==> crate::line::echo_byte(b, is_secret_target(s, m)) == b,
{
}

} // verus!
