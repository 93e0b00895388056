//! The window registry: numbers each open, plans the window, builds the
//! record of an opened window and keeps the records by label.
use vstd::prelude::*;
use crate::cli::OpenWindowArgs;
use crate::json::{
    encode_pairs, encode_str, encoded_pairs, json_object, json_object_of, json_string_of,
};
use crate::keyed::{
    collect_pairs, keyed_map, lemma_keyed_map_domain, lemma_keyed_map_entry,
    lemma_keyed_map_len, pairs_view, unique_keys,
};
use crate::label::{label_of, lemma_labels_distinct, window_label};

verus! {

/// The record of one opened window: its identity and launch context.
#[derive(Clone, Debug)]
pub struct WindowState {
    pub window_id: String,
    pub window_label: String,
    /// Launch arguments, keys unique.
    pub args: Vec<(String, String)>,
    /// The process environment at open time, keys unique.
    pub env: Vec<(String, String)>,
}

/// What a [`WindowState`] holds, as plain sequences.
pub struct WindowStateView {
    pub window_id: Seq<char>,
    pub window_label: Seq<char>,
    pub args: Seq<(Seq<char>, Seq<char>)>,
    pub env: Seq<(Seq<char>, Seq<char>)>,
}

impl View for WindowState {
    type V = WindowStateView;

    open spec fn view(&self) -> WindowStateView {
        WindowStateView {
            window_id: self.window_id@,
            window_label: self.window_label@,
            args: pairs_view(self.args@),
            env: pairs_view(self.env@),
        }
    }
}

fn copy_pairs(v: &Vec<(String, String)>) -> (r: Vec<(String, String)>)
    ensures
        pairs_view(r@) == pairs_view(v@),
{
    let mut r: Vec<(String, String)> = Vec::new();
    let mut i: usize = 0;
    while i < v.len()
        invariant
            i <= v.len(),
            pairs_view(r@) == pairs_view(v@.subrange(0, i as int)),
        decreases v.len() - i,
    {
        let ghost before = r@;
        let k = v[i].0.clone();
        let x = v[i].1.clone();
        r.push((k, x));
        assert(r@ == before.push((k, x)));
        assert(pairs_view(v@.subrange(0, i + 1)) =~= pairs_view(v@.subrange(0, i as int)).push((k@, x@)));
        assert(pairs_view(r@) =~= pairs_view(before).push((k@, x@)));
        i = i + 1;
    }
    assert(v@.subrange(0, i as int) =~= v@);
    r
}

impl WindowState {
    /// A copy of the record.
    pub fn copy(&self) -> (r: WindowState)
        ensures
            r@ == self@,
    {
        WindowState {
            window_id: self.window_id.clone(),
            window_label: self.window_label.clone(),
            args: copy_pairs(&self.args),
            env: copy_pairs(&self.env),
        }
    }
}

/// Why an open attempt was abandoned.
#[derive(Debug)]
pub enum OpenError {
    /// The toolkit could not build the window; its message.
    Construction(String),
    /// The record could not be serialized for the window's script.
    Serialization,
}

/// Start of every window's title; the window id follows it.
pub const TITLE_PREFIX: &'static str = "Zebar - ";

/// The script global under which a window finds its own record.
pub const SCRIPT_PREFIX: &'static str = "window.__ZEBAR_OPEN_ARGS=";

/// Names of the record's fields in its JSON form.
pub const FIELD_WINDOW_ID: &'static str = "windowId";
pub const FIELD_WINDOW_LABEL: &'static str = "windowLabel";
pub const FIELD_ARGS: &'static str = "args";
pub const FIELD_ENV: &'static str = "env";

/// Initial width and height of a window, in logical pixels.
pub const WINDOW_SIZE: u32 = 500;

/// The configuration that the toolkit builds a window from.
#[derive(Debug)]
pub struct WindowConfig {
    pub label: String,
    pub title: String,
    pub width: u32,
    pub height: u32,
    pub focused: bool,
    pub skip_taskbar: bool,
    pub visible_on_all_workspaces: bool,
    pub transparent: bool,
    pub shadow: bool,
    pub decorations: bool,
    pub resizable: bool,
    /// Where the platform offers tool-window styling, apply it.
    pub tool_window: bool,
}

/// The launch arguments of a request, as given (none where absent).
pub open spec fn requested_args(a: &OpenWindowArgs) -> Seq<(Seq<char>, Seq<char>)> {
    match a.args {
        Some(v) => pairs_view(v@),
        None => Seq::empty(),
    }
}

/// The JSON form of a record, as injected into its window.
pub open spec fn state_json(s: WindowStateView) -> Seq<char> {
    json_object_of(
        seq![
            (json_string_of(FIELD_WINDOW_ID@), json_string_of(s.window_id)),
            (json_string_of(FIELD_WINDOW_LABEL@), json_string_of(s.window_label)),
            (json_string_of(FIELD_ARGS@), json_object_of(encoded_pairs(s.args))),
            (json_string_of(FIELD_ENV@), json_object_of(encoded_pairs(s.env))),
        ],
    )
}

/// The record found under a label, if any.
pub open spec fn lookup(
    states: Map<Seq<char>, WindowStateView>,
    label: Seq<char>,
) -> Option<WindowStateView> {
    if states.contains_key(label) {
        Some(states[label])
    } else {
        None
    }
}

/// The view of an optional record.
pub open spec fn option_view(r: Option<WindowState>) -> Option<WindowStateView> {
    match r {
        Some(s) => Some(s@),
        None => None,
    }
}

/// Numbers window opens and keeps the record of each window that opened,
/// by label. A number is pending from the moment it is handed out until its
/// open attempt ends; a record is kept only for a pending number, so no kept
/// record is ever replaced.
pub struct WindowFactory {
    window_count: u32,
    window_states: Vec<WindowState>,
    window_numbers: Vec<u32>,
    pending: Vec<u32>,
}

impl WindowFactory {
    /// How many opens have been numbered so far.
    pub closed spec fn count(&self) -> nat {
        self.window_count as nat
    }

    /// The numbers handed out whose open attempt has not ended.
    pub closed spec fn pending(&self) -> Set<nat> {
        Set::new(|n: nat| exists|i: int| 0 <= i < self.pending@.len() && self.pending@[i] as nat == n)
    }

    /// The records, each with its label as key, in the order kept.
    pub closed spec fn entries(&self) -> Seq<(Seq<char>, WindowStateView)> {
        self.window_states@.map_values(|s: WindowState| (s.window_label@, s@))
    }

    /// The number of each record's open, with the record's label as key.
    pub closed spec fn number_entries(&self) -> Seq<(Seq<char>, nat)> {
        Seq::new(
            self.window_states@.len(),
            |i: int| (self.window_states@[i].window_label@, self.window_numbers@[i] as nat),
        )
    }

    /// The records by label.
    pub open spec fn states(&self) -> Map<Seq<char>, WindowStateView> {
        keyed_map(self.entries())
    }

    /// The number of the open that each record comes from, by label.
    pub open spec fn numbers(&self) -> Map<Seq<char>, nat> {
        keyed_map(self.number_entries())
    }

    /// The registry's internal consistency.
    pub closed spec fn wf(&self) -> bool {
        let ws = self.window_states@;
        let nums = self.window_numbers@;
        let pend = self.pending@;
        &&& nums.len() == ws.len()
        &&& unique_keys(self.entries())
        &&& forall|i: int|
            0 <= i < ws.len() ==> 1 <= #[trigger] nums[i] <= self.window_count
                && !self.pending().contains(nums[i] as nat)
                && ws[i]@.window_label == label_of(nums[i] as nat, ws[i]@.window_id)
        &&& forall|i: int, j: int| 0 <= i < j < nums.len() ==> nums[i] != nums[j]
        &&& forall|i: int| 0 <= i < pend.len() ==> 1 <= #[trigger] pend[i] <= self.window_count
        &&& forall|i: int, j: int| 0 <= i < j < pend.len() ==> pend[i] != pend[j]
    }

    /// What the registry guarantees of its records: each is kept under its
    /// own label, which is `label_of(n, window_id)` for the number n of its
    /// open; n is at most the count and no longer pending; no two records
    /// come from the same number; and pending numbers are at most the count.
    pub open spec fn registry_inv(&self) -> bool {
        &&& self.numbers().dom() == self.states().dom()
        &&& forall|k: Seq<char>| #[trigger] self.states().contains_key(k) ==> {
            &&& self.states()[k].window_label == k
            &&& 1 <= self.numbers()[k] <= self.count()
            &&& !self.pending().contains(self.numbers()[k])
            &&& k == label_of(self.numbers()[k], self.states()[k].window_id)
        }
        &&& forall|k1: Seq<char>, k2: Seq<char>|
            self.states().contains_key(k1) && self.states().contains_key(k2) && k1 != k2
                ==> #[trigger] self.numbers()[k1] != #[trigger] self.numbers()[k2]
        &&& forall|n: nat| #[trigger] self.pending().contains(n) ==> 1 <= n <= self.count()
    }

    /// A registry that has numbered no open and holds no record.
    pub fn new() -> (r: WindowFactory)
        ensures
            r.wf(),
            r.count() == 0,
            r.pending() == Set::<nat>::empty(),
            r.states() == Map::<Seq<char>, WindowStateView>::empty(),
            r.numbers() == Map::<Seq<char>, nat>::empty(),
    {
        let r = WindowFactory {
            window_count: 0,
            window_states: Vec::new(),
            window_numbers: Vec::new(),
            pending: Vec::new(),
        };
        assert(r.entries() =~= Seq::empty());
        assert(r.number_entries() =~= Seq::empty());
        assert(r.pending() =~= Set::empty());
        r
    }

    /// The number of opens numbered so far.
    pub fn window_count(&self) -> (r: u32)
        ensures
            r as nat == self.count(),
    {
        self.window_count
    }

    /// The number of records held.
    pub fn len(&self) -> (r: usize)
        requires
            self.wf(),
        ensures
            r as nat == self.states().dom().len(),
    {
        proof {
            lemma_keyed_map_len(self.entries());
        }
        self.window_states.len()
    }

    /// Whether `n` was handed out and its open attempt has not ended.
    pub fn is_pending(&self, n: u32) -> (r: bool)
        ensures
            r == self.pending().contains(n as nat),
    {
        let mut i: usize = 0;
        while i < self.pending.len()
            invariant
                i <= self.pending@.len(),
                forall|m: int| 0 <= m < i ==> self.pending@[m] != n,
            decreases self.pending.len() - i,
        {
            if self.pending[i] == n {
                return true;
            }
            i = i + 1;
        }
        false
    }

    /// Numbers a new open: the counter goes up by one, its new value is the
    /// open's number, and that number becomes pending. Numbers are never
    /// reused, so where the counter is at its largest value nothing changes
    /// and no number is given.
    pub fn begin_open(&mut self) -> (r: Option<u32>)
        requires
            old(self).wf(),
        ensures
            final(self).wf(),
            final(self).states() == old(self).states(),
            final(self).numbers() == old(self).numbers(),
            old(self).count() < u32::MAX ==> r == Some((old(self).count() + 1) as u32)
                && final(self).count() == old(self).count() + 1
                && !old(self).pending().contains(old(self).count() + 1)
                && final(self).pending() == old(self).pending().insert(old(self).count() + 1),
            old(self).count() == u32::MAX ==> r is None && final(self).count() == old(self).count()
                && final(self).pending() == old(self).pending(),
    {
        if self.window_count < u32::MAX {
            let ghost before = self.pending@;
            let ghost old_pending = self.pending();
            self.window_count = self.window_count + 1;
            let n = self.window_count;
            self.pending.push(n);
            proof {
                assert(forall|i: int| 0 <= i < before.len() ==> self.pending@[i] == before[i]);
                assert(self.pending@[before.len() as int] == n);
                assert(!old_pending.contains(n as nat)) by {
                    if old_pending.contains(n as nat) {
                        let i = choose|i: int| 0 <= i < before.len() && before[i] as nat == n as nat;
                    }
                }
                assert(self.pending() =~= old_pending.insert(n as nat)) by {
                    assert forall|x: nat| self.pending().contains(x) implies old_pending.insert(n as nat).contains(x) by {
                        let i = choose|i: int| 0 <= i < self.pending@.len() && self.pending@[i] as nat == x;
                        if i < before.len() {
                            assert(before[i] as nat == x);
                        }
                    }
                    assert forall|x: nat| old_pending.insert(n as nat).contains(x) implies self.pending().contains(x) by {
                        if x == n as nat {
                            assert(self.pending@[before.len() as int] as nat == x);
                        } else {
                            let i = choose|i: int| 0 <= i < before.len() && before[i] as nat == x;
                            assert(self.pending@[i] as nat == x);
                        }
                    }
                }
                assert(forall|i: int| 0 <= i < self.window_numbers@.len()
                    ==> #[trigger] self.window_numbers@[i] < n);
            }
            Some(n)
        } else {
            None
        }
    }

    /// The configuration of the window opened as number `window_count`:
    /// its unique label, its title, and fixed presentation (not focused,
    /// hidden from the taskbar, on all workspaces, transparent, no shadow,
    /// no decorations, not resizable, tool-window styling).
    pub fn plan_open(open_args: &OpenWindowArgs, window_count: u32) -> (r: WindowConfig)
        ensures
            r.label@ == label_of(window_count as nat, open_args.window_id@),
            r.title@ == TITLE_PREFIX@ + open_args.window_id@,
            r.width == WINDOW_SIZE,
            r.height == WINDOW_SIZE,
            !r.focused,
            r.skip_taskbar,
            r.visible_on_all_workspaces,
            r.transparent,
            !r.shadow,
            !r.decorations,
            !r.resizable,
            r.tool_window,
    {
        let mut title = String::from_str(TITLE_PREFIX);
        title.append(open_args.window_id.as_str());
        WindowConfig {
            label: window_label(window_count, open_args.window_id.as_str()),
            title,
            width: WINDOW_SIZE,
            height: WINDOW_SIZE,
            focused: false,
            skip_taskbar: true,
            visible_on_all_workspaces: true,
            transparent: true,
            shadow: false,
            decorations: false,
            resizable: false,
            tool_window: true,
        }
    }

    /// The record of the window opened as number `window_count`: the request's
    /// id, the window's label, and the request's arguments and the given
    /// environment, each with unique keys, a later pair winning over an
    /// earlier one with the same key.
    pub fn window_state(
        open_args: &OpenWindowArgs,
        window_count: u32,
        env: &Vec<(String, String)>,
    ) -> (r: WindowState)
        ensures
            r@.window_id == open_args.window_id@,
            r@.window_label == label_of(window_count as nat, open_args.window_id@),
            unique_keys(r@.args),
            keyed_map(r@.args) == keyed_map(requested_args(open_args)),
            unique_keys(r@.env),
            keyed_map(r@.env) == keyed_map(pairs_view(env@)),
    {
        let args = match &open_args.args {
            Some(v) => collect_pairs(v),
            None => Vec::new(),
        };
        proof {
            if open_args.args is None {
                assert(pairs_view(args@) =~= Seq::empty());
            }
        }
        WindowState {
            window_id: open_args.window_id.clone(),
            window_label: window_label(window_count, open_args.window_id.as_str()),
            args,
            env: collect_pairs(env),
        }
    }

    /// The record as JSON, with fields `windowId`, `windowLabel`, `args`
    /// and `env`. serde_json encodes every string, and on strings it does not
    /// fail, so this always succeeds.
    pub fn state_to_json(state: &WindowState) -> (r: Result<String, OpenError>)
        ensures
            r matches Ok(j) && j@ == state_json(state@),
    {
        let k_id = encode_str(FIELD_WINDOW_ID);
        let v_id = encode_str(state.window_id.as_str());
        let k_label = encode_str(FIELD_WINDOW_LABEL);
        let v_label = encode_str(state.window_label.as_str());
        let k_args = encode_str(FIELD_ARGS);
        let args = encode_pairs(&state.args);
        let k_env = encode_str(FIELD_ENV);
        let env = encode_pairs(&state.env);
        let v_args = json_object(&args);
        let v_env = json_object(&env);
        let mut members: Vec<(String, String)> = Vec::new();
        members.push((k_id, v_id));
        members.push((k_label, v_label));
        members.push((k_args, v_args));
        members.push((k_env, v_env));
        let ghost expected = seq![
            (json_string_of(FIELD_WINDOW_ID@), json_string_of(state.window_id@)),
            (json_string_of(FIELD_WINDOW_LABEL@), json_string_of(state.window_label@)),
            (json_string_of(FIELD_ARGS@), json_object_of(encoded_pairs(state@.args))),
            (json_string_of(FIELD_ENV@), json_object_of(encoded_pairs(state@.env))),
        ];
        assert(pairs_view(members@) =~= expected);
        Ok(json_object(&members))
    }

    /// The script that hands a window its own record: the record's JSON
    /// assigned to a well-known global. Always succeeds.
    pub fn init_script(state: &WindowState) -> (r: Result<String, OpenError>)
        ensures
            r matches Ok(s) && s@ == SCRIPT_PREFIX@ + state_json(state@),
    {
        match Self::state_to_json(state) {
            Ok(j) => {
                let mut s = String::from_str(SCRIPT_PREFIX);
                s.append(j.as_str());
                Ok(s)
            },
            Err(e) => Err(e),
        }
    }

    /// Ends the open attempt numbered `window_count`, which must be pending:
    /// the number stops being pending; the record of a window that opened
    /// is kept under its label, which no kept record has; a failed attempt
    /// leaves the records as they were, and its error is handed back.
    pub fn complete_open(
        &mut self,
        window_count: u32,
        outcome: Result<WindowState, OpenError>,
    ) -> (r: Option<OpenError>)
        requires
            old(self).wf(),
            old(self).pending().contains(window_count as nat),
            outcome matches Ok(s) ==> s@.window_label == label_of(window_count as nat, s@.window_id),
        ensures
            final(self).wf(),
            final(self).count() == old(self).count(),
            final(self).pending() == old(self).pending().remove(window_count as nat),
            match outcome {
                Ok(s) => r is None
                    && !old(self).states().contains_key(s@.window_label)
                    && final(self).states() == old(self).states().insert(s@.window_label, s@)
                    && final(self).numbers() == old(self).numbers().insert(s@.window_label, window_count as nat),
                Err(_) => r is Some
                    && final(self).states() == old(self).states()
                    && final(self).numbers() == old(self).numbers(),
            },
    {
        let n = window_count;
        let ghost old_pending = self.pending();
        let ghost pend = self.pending@;
        let mut p: usize = 0;
        while p < self.pending.len() && self.pending[p] != n
            invariant
                p <= self.pending@.len(),
                self.pending@ == pend,
                old_pending.contains(n as nat),
                old_pending == Set::new(|x: nat| exists|i: int| 0 <= i < pend.len() && pend[i] as nat == x),
                forall|m: int| 0 <= m < p ==> pend[m] != n,
            decreases self.pending.len() - p,
        {
            p = p + 1;
        }
        proof {
            if p == pend.len() {
                let i = choose|i: int| 0 <= i < pend.len() && pend[i] as nat == n as nat;
                assert(pend[i] != n);
            }
        }
        self.pending.remove(p);
        proof {
            let after = self.pending@;
            assert(after == pend.remove(p as int));
            assert(forall|i: int| 0 <= i < p ==> after[i] == pend[i]);
            assert(forall|i: int| p <= i < after.len() ==> after[i] == pend[i + 1]);
            assert(self.pending() =~= old_pending.remove(n as nat)) by {
                assert forall|x: nat| self.pending().contains(x) implies old_pending.remove(n as nat).contains(x) by {
                    let i = choose|i: int| 0 <= i < after.len() && after[i] as nat == x;
                    if i < p {
                        assert(pend[i] as nat == x);
                        assert(pend[i] != pend[p as int]);
                    } else {
                        assert(pend[i + 1] as nat == x);
                        assert(pend[i + 1] != pend[p as int]);
                    }
                }
                assert forall|x: nat| old_pending.remove(n as nat).contains(x) implies self.pending().contains(x) by {
                    let i = choose|i: int| 0 <= i < pend.len() && pend[i] as nat == x;
                    if i < p {
                        assert(after[i] as nat == x);
                    } else {
                        assert(i != p);
                        assert(after[i - 1] as nat == x);
                    }
                }
            }
        }
        match outcome {
            Ok(state) => {
                let ghost before = self.entries();
                let ghost nbefore = self.number_entries();
                let ghost ws = self.window_states@;
                let ghost nums = self.window_numbers@;
                let ghost entry = (state.window_label@, state@);
                proof {
                    assert forall|i: int| 0 <= i < before.len() implies before[i].0 != entry.0 by {
                        assert(before[i].0 == ws[i]@.window_label);
                        assert(nums[i] != n);
                        lemma_labels_distinct(
                            nums[i] as nat,
                            ws[i]@.window_id,
                            n as nat,
                            state@.window_id,
                        );
                    }
                    lemma_keyed_map_domain(before, entry.0);
                }
                self.window_states.push(state);
                self.window_numbers.push(n);
                proof {
                    let t = self.entries();
                    let nt = self.number_entries();
                    assert(t =~= before.push(entry));
                    assert(nt =~= nbefore.push((entry.0, n as nat)));
                    assert(t.drop_last() == before);
                    assert(nt.drop_last() == nbefore);
                    assert(unique_keys(t)) by {
                        assert forall|a: int, b: int| 0 <= a < b < t.len() implies t[a].0 != t[b].0 by {
                            if b < before.len() {
                                assert(t[a] == before[a] && t[b] == before[b]);
                            } else {
                                assert(t[a] == before[a]);
                            }
                        }
                    }
                    assert(forall|i: int| 0 <= i < ws.len() ==> self.window_states@[i] == ws[i]);
                    assert(forall|i: int| 0 <= i < nums.len() ==> self.window_numbers@[i] == nums[i]);
                }
                None
            },
            Err(e) => Some(e),
        }
    }

    /// The record of the window with the given label, if one was kept.
    pub fn state_by_window_label(&self, window_label: String) -> (r: Option<WindowState>)
        requires
            self.wf(),
        ensures
            option_view(r) == lookup(self.states(), window_label@),
    {
        let ghost entries = self.entries();
        let mut j: usize = 0;
        while j < self.window_states.len()
            invariant
                j <= self.window_states.len(),
                entries == self.entries(),
                unique_keys(entries),
                forall|m: int| 0 <= m < j ==> entries[m].0 != window_label@,
            decreases self.window_states.len() - j,
        {
            if self.window_states[j].window_label == window_label {
                proof {
                    lemma_keyed_map_entry(entries, j as int);
                }
                return Some(self.window_states[j].copy());
            }
            j = j + 1;
        }
        proof {
            lemma_keyed_map_domain(entries, window_label@);
        }
        None
    }
}

/// What a consistent registry guarantees of its records (see `registry_inv`).
pub proof fn lemma_registry_inv(f: WindowFactory)
    requires
        f.wf(),
    ensures
        f.registry_inv(),
{
    let e = f.entries();
    let ne = f.number_entries();
    assert(unique_keys(ne)) by {
        assert forall|a: int, b: int| 0 <= a < b < ne.len() implies ne[a].0 != ne[b].0 by {
            assert(ne[a].0 == e[a].0 && ne[b].0 == e[b].0);
        }
    }
    assert forall|k: Seq<char>| f.numbers().contains_key(k) <==> f.states().contains_key(k) by {
        lemma_keyed_map_domain(e, k);
        lemma_keyed_map_domain(ne, k);
        if exists|j: int| 0 <= j < e.len() && e[j].0 == k {
            let j = choose|j: int| 0 <= j < e.len() && e[j].0 == k;
            assert(ne[j].0 == k);
        }
        if exists|j: int| 0 <= j < ne.len() && ne[j].0 == k {
            let j = choose|j: int| 0 <= j < ne.len() && ne[j].0 == k;
            assert(e[j].0 == k);
        }
    }
    assert(f.numbers().dom() =~= f.states().dom());
    assert forall|k: Seq<char>| #[trigger] f.states().contains_key(k) implies {
        &&& f.states()[k].window_label == k
        &&& 1 <= f.numbers()[k] <= f.count()
        &&& !f.pending().contains(f.numbers()[k])
        &&& k == label_of(f.numbers()[k], f.states()[k].window_id)
    } by {
        lemma_keyed_map_domain(e, k);
        let j = choose|j: int| 0 <= j < e.len() && e[j].0 == k;
        lemma_keyed_map_entry(e, j);
        assert(ne[j].0 == k);
        lemma_keyed_map_entry(ne, j);
        assert(f.window_numbers@[j] >= 1);
    }
    assert forall|k1: Seq<char>, k2: Seq<char>|
        f.states().contains_key(k1) && f.states().contains_key(k2) && k1 != k2
            implies #[trigger] f.numbers()[k1] != #[trigger] f.numbers()[k2] by {
        lemma_keyed_map_domain(e, k1);
        lemma_keyed_map_domain(e, k2);
        let j1 = choose|j: int| 0 <= j < e.len() && e[j].0 == k1;
        let j2 = choose|j: int| 0 <= j < e.len() && e[j].0 == k2;
        assert(ne[j1].0 == k1 && ne[j2].0 == k2);
        lemma_keyed_map_entry(ne, j1);
        lemma_keyed_map_entry(ne, j2);
        assert(j1 != j2);
        if j1 < j2 {
            assert(f.window_numbers@[j1] != f.window_numbers@[j2]);
        } else {
            assert(f.window_numbers@[j2] != f.window_numbers@[j1]);
        }
    }
    assert forall|n: nat| #[trigger] f.pending().contains(n) implies 1 <= n <= f.count() by {
        let i = choose|i: int| 0 <= i < f.pending@.len() && f.pending@[i] as nat == n;
        assert(1 <= f.pending@[i] <= f.window_count);
    }
}

/// Open i found the counter at `counts[i]`, was numbered `counts[i] + 1`,
/// and left the counter at that number.
pub open spec fn is_open_run(counts: Seq<nat>, numbers: Seq<nat>) -> bool {
    &&& counts.len() == numbers.len() + 1
    &&& forall|i: int|
        0 <= i < numbers.len() ==> #[trigger] numbers[i] == counts[i] + 1 && counts[i + 1] == numbers[i]
}

proof fn lemma_open_run_counts(counts: Seq<nat>, numbers: Seq<nat>, k: int)
    requires
        is_open_run(counts, numbers),
        0 <= k < counts.len(),
    ensures
        counts[k] == counts[0] + k,
    decreases k,
{
    if k > 0 {
        lemma_open_run_counts(counts, numbers, k - 1);
        assert(numbers[k - 1] == counts[k - 1] + 1);
    }
}

/// Of any run of opens, each numbered by `begin_open` on the counter that the
/// one before left (`counts[i]` before open i, `numbers[i]` its number), the
/// numbers are the counter's first value plus 1, 2, ..., N in order, the
/// counter ends N higher, the numbers are pairwise distinct, and so are the
/// labels of their windows, whichever window definitions they open and
/// whether or not each open then succeeds.
pub proof fn lemma_open_run_distinct(counts: Seq<nat>, numbers: Seq<nat>, window_ids: Seq<Seq<char>>)
    requires
        window_ids.len() == numbers.len(),
        is_open_run(counts, numbers),
    ensures
        counts.last() == counts[0] + numbers.len(),
        forall|i: int| 0 <= i < numbers.len() ==> numbers[i] == counts[0] + i + 1,
        forall|i: int, j: int|
            0 <= i < numbers.len() && 0 <= j < numbers.len() && i != j ==> numbers[i] != numbers[j]
                && label_of(numbers[i], window_ids[i]) != label_of(numbers[j], window_ids[j]),
{
    lemma_open_run_counts(counts, numbers, numbers.len() as int);
    assert forall|i: int| 0 <= i < numbers.len() implies numbers[i] == counts[0] + i + 1 by {
        lemma_open_run_counts(counts, numbers, i);
    }
    assert forall|i: int, j: int|
        0 <= i < numbers.len() && 0 <= j < numbers.len() && i != j implies numbers[i] != numbers[j]
            && label_of(numbers[i], window_ids[i]) != label_of(numbers[j], window_ids[j]) by {
        lemma_open_run_counts(counts, numbers, i);
        lemma_open_run_counts(counts, numbers, j);
        lemma_labels_distinct(numbers[i], window_ids[i], numbers[j], window_ids[j]);
    }
}

/// Looking a label up answers from the kept records alone: two lookups of one
/// label on the same records give equal records; a label that was never kept
/// gives none; and once an open has completed, its label gives its record.
pub proof fn lemma_lookup_stable(
    before: Map<Seq<char>, WindowStateView>,
    after: Map<Seq<char>, WindowStateView>,
    opened: WindowStateView,
    label: Seq<char>,
    r1: Option<WindowStateView>,
    r2: Option<WindowStateView>,
)
    requires
        after == before.insert(opened.window_label, opened),
        r1 == lookup(after, label),
        r2 == lookup(after, label),
    ensures
        r1 == r2,
        !after.contains_key(label) ==> r1 is None,
        label == opened.window_label ==> r1 == Some(opened),
        label != opened.window_label ==> r1 == lookup(before, label),
{
}

} // verus!
