//! The drop-down lists of the gui: `Select` and `DropdownButton` open a list of option buttons
//! below themselves when their main button is toggled, and take the value of the option whose
//! button is pressed.
use vstd::prelude::*;
use crate::{Id, ROOT};
use crate::event::{Event, EventKind, FieldId, Field};
use crate::lens::{ToggleButtonStateLens, TextFieldTextLens, ChildLens, FirstChildLens, Lens};
use crate::widget::{WidgetKind, Select, SelectOption, ToggleButton, Container, Button, DropdownButton, DropdownOption, opt_str};
use crate::collections::{option_entries, opt_lookup, options_insert, options_new, options_inserted, lemma_lookup_insert_other, lemma_lookup_insert_same};
use super::{Gui, clone_opt_string, ID_LIMIT};
use super::frame::{other_events_of, caused_other};
use indexmap::IndexMap;

verus! {

/// Whether `b` is a button (or toggle button) below `sid` in `g` that was not in `old`, and
/// that the option map `opt` names as the button of the option `k`.
pub open spec fn option_button(g: Gui, old: Gui, sid: Id, opt: Seq<(usize, usize)>, b: Id, k: int) -> bool {
    &&& !old.live(b)
    &&& g.live(b)
    &&& g.in_subtree(sid, b)
    &&& (g.kind(b) is ToggleButton || g.kind(b) is Button)
    &&& opt_lookup(opt, b) == Some(k as usize)
}

/// Whether the option map `opt` names a button below `sid` in `g`, not in `old`, as the button
/// of the option `k`.
pub open spec fn has_option_button(g: Gui, old: Gui, sid: Id, opt: Seq<(usize, usize)>, k: int) -> bool {
    exists|b: Id| #[trigger] option_button(g, old, sid, opt, b, k)
}

/// Whether the first child of the button `b` of `g` is a text field.
pub open spec fn text_child(g: Gui, b: Id) -> bool {
    g.children_of(b).len() > 0 && g.kind(g.children_of(b)[0]) is TextField
}

/// Whether the button `b` of `g` shows the text `t`: its first child is a text field holding
/// `t`.
pub open spec fn shows_text(g: Gui, b: Id, t: Seq<char>) -> bool {
    text_child(g, b) && g.kind(g.children_of(b)[0])->TextField_0.text@ == t
}

/// Whether `y` is the key of none of the entries `opt`.
pub open spec fn not_a_key(opt: Seq<(usize, usize)>, y: Id) -> bool {
    forall|j: int| 0 <= j < opt.len() ==> (#[trigger] opt[j]).0 != y
}

/// Whether the toggle button `b` of `g` shows the option `o` of a select whose value is `value`
/// (its name, and being on exactly where the option holds that value), and the option map `opt`
/// names it as the button of the option `k`.
pub open spec fn shows_option(g: Gui, b: Id, o: SelectOption, value: Option<Seq<char>>, opt: Seq<(usize, usize)>, k: int) -> bool {
    &&& g.live(b)
    &&& g.kind(b) is ToggleButton
    &&& g.toggle_state(b) == (opt_str(o.value) == value)
    &&& shows_text(g, b, o.name@)
    &&& opt_lookup(opt, b) == Some(k as usize)
}

/// Whether `g` holds the list of the select `sid` opened from `old`: a new container `c`, put
/// after the children `sid` had, whose children are, in order, one toggle button per option of
/// `options`, each showing its option as `shows_option` says.
pub open spec fn select_list_shown(g: Gui, old: Gui, sid: Id, c: Id, opt: Seq<(usize, usize)>, options: Seq<SelectOption>, value: Option<Seq<char>>) -> bool {
    &&& !old.live(c)
    &&& g.live(c)
    &&& g.kind(c) is Container
    &&& g.children_of(sid) == old.children_of(sid).push(c)
    &&& g.children_of(c).len() == options.len()
    &&& forall|k: int| 0 <= k < options.len() ==> #[trigger] shows_option(g, g.children_of(c)[k], options[k], value, opt, k)
}

/// Whether, of the first `n` entries of the option map `opt` of the select `sid` of `g`, each
/// that names a toggle button below `sid` (where no later entry of those names it again) names
/// one that is on exactly where its option holds `value`.
pub open spec fn option_states_upto(g: Gui, sid: Id, opt: Seq<(usize, usize)>, n: int, options: Seq<SelectOption>, value: Option<Seq<char>>) -> bool {
    forall|j: int| 0 <= j < n && j < opt.len() && (#[trigger] opt[j]).1 < options.len() && opt[j].0 != sid && g.live(opt[j].0)
        && g.in_subtree(sid, opt[j].0) && g.kind(opt[j].0) is ToggleButton
        && (forall|j2: int| j < j2 < n && j2 < opt.len() ==> opt[j2].0 != opt[j].0)
        ==> g.toggle_state(opt[j].0) == (opt_str(options[opt[j].1 as int].value) == value)
}

/// Whether each option button of the select `sid` of `g` that its option map `opt` names is on
/// exactly where its option holds `value` (see `option_states_upto`).
pub open spec fn option_states_shown(g: Gui, sid: Id, opt: Seq<(usize, usize)>, options: Seq<SelectOption>, value: Option<Seq<char>>) -> bool {
    option_states_upto(g, sid, opt, opt.len() as int, options, value)
}

/// Whether the button `b` of `g` shows the name of the option `o` of a dropdown button, and the
/// option map `opt` names it as the button of the option `k`.
pub open spec fn shows_dropdown_option(g: Gui, b: Id, o: DropdownOption, opt: Seq<(usize, usize)>, k: int) -> bool {
    &&& g.live(b)
    &&& g.kind(b) is Button
    &&& shows_text(g, b, o.name@)
    &&& opt_lookup(opt, b) == Some(k as usize)
}

/// Whether `g` holds the list of the dropdown button `sid` opened from `old`: after the children
/// `sid` had, new buttons, one per option of `options` in order, each showing its option as
/// `shows_dropdown_option` says.
pub open spec fn dropdown_list_shown(g: Gui, old: Gui, sid: Id, opt: Seq<(usize, usize)>, options: Seq<DropdownOption>) -> bool {
    let n0 = old.children_of(sid).len();
    &&& g.children_of(sid).len() == n0 + options.len()
    &&& g.children_of(sid).take(n0 as int) == old.children_of(sid)
    &&& forall|k: int| 0 <= k < options.len() ==> !old.live(#[trigger] g.children_of(sid)[n0 + k])
        && shows_dropdown_option(g, g.children_of(sid)[n0 + k], options[k], opt, k)
}

/// Whether `e` stands at most once in `s`.
pub open spec fn at_most_once(s: Seq<Event>, e: Event) -> bool {
    forall|a: int, b: int| 0 <= a < b < s.len() && #[trigger] s[a] == e ==> #[trigger] s[b] != e
}

/// Whether every widget marked for removal in `g` after the first `from` marks is a child of
/// `sid` other than `main`.
pub open spec fn marks_only_list(g: Gui, from: nat, sid: Id, main: Id) -> bool {
    forall|k: int| from <= k < g.removal_queue().len() ==> g.children_of(sid).contains(#[trigger] g.removal_queue()[k])
        && g.removal_queue()[k] != main
}

/// Whether `g` has ids enough left for a list of `n` options.
pub open spec fn room_for_list(g: Gui, n: nat) -> bool {
    g.last_id() + 2 * n + 1 < ID_LIMIT
}

impl Gui {
    /// An existing widget that lies below `sid` in `old` still does so after growth within
    /// `sid`.
    pub(crate) proof fn lemma_grows_keeps_subtree(&self, old: &Gui, sid: Id, y: Id)
        requires
            old.wf(),
            old.live(y),
            old.in_subtree(sid, y),
            self.grows_within(old, sid),
        ensures
            self.in_subtree(sid, y),
            self.live(y),
    {
        if y != sid {
            assert(old.has_path(y));
        }
    }

    /// Once the button `b` of the option `i` is added below `sid`, the buttons of the options
    /// before it added since `g0` still stand, and the option map names each.
    proof fn lemma_option_buttons_grow(g: Gui, gi: Gui, g0: Gui, sid: Id, c: Id, b: Id, mi: Seq<(usize, usize)>, m: Seq<(usize, usize)>, i: int)
        requires
            g0.wf(),
            gi.wf(),
            g.grows_within(&gi, sid),
            g0.last_id() <= gi.last_id(),
            b == gi.last_id() + 1,
            g.live(b),
            g.in_subtree(sid, b),
            g.kind(b) is ToggleButton || g.kind(b) is Button,
            forall|y: Id| gi.live(y) && y != c ==> #[trigger] g.widget(y) == gi.widget(y),
            gi.kind(c) is Container || g0.live(c),
            m == options_inserted(mi, b, i as usize),
            0 <= i,
            i < usize::MAX,
            forall|k: int| 0 <= k < i ==> #[trigger] has_option_button(gi, g0, sid, mi, k),
        ensures
            forall|k: int| 0 <= k < i + 1 ==> #[trigger] has_option_button(g, g0, sid, m, k),
    {
        assert(!g0.live(b));
        lemma_lookup_insert_same(mi, b, i as usize);
        assert(option_button(g, g0, sid, m, b, i));
        assert forall|k: int| 0 <= k < i + 1 implies #[trigger] has_option_button(g, g0, sid, m, k) by {
            if k < i {
                assert(has_option_button(gi, g0, sid, mi, k));
                let x = choose|x: Id| #[trigger] option_button(gi, g0, sid, mi, x, k);
                assert(x <= gi.last_id());
                assert(x != b);
                lemma_lookup_insert_other(mi, b, i as usize, x);
                assert(x != c);
                assert(g.widget(x) == gi.widget(x));
                assert(x != ROOT);
                assert(gi.has_path(x));
                assert(g.path(x) == gi.path(x));
                assert(option_button(g, g0, sid, m, x, k));
            }
        }
    }

    /// The buttons of options added since `g0` below `sid` stand as long as the widgets other
    /// than `sid` stay as they are and the option map keeps what it names.
    proof fn lemma_option_buttons_kept(g: Gui, gi: Gui, g0: Gui, sid: Id, m: Seq<(usize, usize)>, mi: Seq<(usize, usize)>, n: nat)
        requires
            g0.wf(),
            g0.live(sid),
            gi.wf(),
            g.wf(),
            forall|y: Id| #[trigger] gi.live(y) ==> g.live(y),
            forall|y: Id| #[trigger] gi.has_path(y) ==> g.path(y) == gi.path(y),
            forall|y: Id| gi.live(y) && y != sid ==> #[trigger] g.widget(y) == gi.widget(y),
            forall|x: Id| x <= gi.last_id() ==> #[trigger] opt_lookup(m, x) == opt_lookup(mi, x),
            forall|k: int| 0 <= k < n ==> #[trigger] has_option_button(gi, g0, sid, mi, k),
        ensures
            forall|k: int| 0 <= k < n ==> #[trigger] has_option_button(g, g0, sid, m, k),
    {
        assert forall|k: int| 0 <= k < n implies #[trigger] has_option_button(g, g0, sid, m, k) by {
            assert(has_option_button(gi, g0, sid, mi, k));
            let x = choose|x: Id| #[trigger] option_button(gi, g0, sid, mi, x, k);
            assert(x <= gi.last_id());
            assert(x != sid);
            assert(x != ROOT);
            assert(gi.has_path(x));
            assert(g.path(x) == gi.path(x));
            assert(g.widget(x) == gi.widget(x));
            assert(option_button(g, g0, sid, m, x, k));
        }
    }

    /// Buttons of options that were not in `gi` were not in an earlier `g0` either.
    pub(crate) proof fn lemma_option_buttons_fresh(g: Gui, gi: Gui, g0: Gui, sid: Id, m: Seq<(usize, usize)>, n: nat)
        requires
            forall|y: Id| #[trigger] g0.live(y) ==> gi.live(y),
            forall|k: int| 0 <= k < n ==> #[trigger] has_option_button(g, gi, sid, m, k),
        ensures
            forall|k: int| 0 <= k < n ==> #[trigger] has_option_button(g, g0, sid, m, k),
    {
        assert forall|k: int| 0 <= k < n implies #[trigger] has_option_button(g, g0, sid, m, k) by {
            assert(has_option_button(g, gi, sid, m, k));
            let x = choose|x: Id| #[trigger] option_button(g, gi, sid, m, x, k);
            assert(option_button(g, g0, sid, m, x, k));
        }
    }

    /// Once the button `b` of the option `i` is put last in the container `c`, the buttons of
    /// the options before it still show their options, and so does `b`.
    proof fn lemma_list_step(g: Gui, gi: Gui, c: Id, b: Id, mi: Seq<(usize, usize)>, m: Seq<(usize, usize)>,
        options: Seq<SelectOption>, value: Option<Seq<char>>, i: int)
        requires
            gi.wf(),
            gi.live(c),
            gi.kind(c) is Container,
            g.kind(c) == gi.kind(c),
            !gi.live(b),
            0 <= i < options.len(),
            i < usize::MAX,
            gi.children_of(c).len() == i,
            forall|k: int| 0 <= k < i ==> #[trigger] shows_option(gi, gi.children_of(c)[k], options[k], value, mi, k),
            g.children_of(c) == gi.children_of(c).push(b),
            forall|y: Id| #[trigger] gi.live(y) ==> g.live(y),
            forall|y: Id| gi.live(y) && y != c ==> #[trigger] g.widget(y) == gi.widget(y),
            forall|x: Id| x != b ==> #[trigger] opt_lookup(m, x) == opt_lookup(mi, x),
            shows_option(g, b, options[i], value, m, i),
        ensures
            g.children_of(c).len() == i + 1,
            forall|k: int| 0 <= k < i + 1 ==> #[trigger] shows_option(g, g.children_of(c)[k], options[k], value, m, k),
    {
        assert forall|k: int| 0 <= k < i + 1 implies #[trigger] shows_option(g, g.children_of(c)[k], options[k], value, m, k) by {
            if k < i {
                let x = gi.children_of(c)[k];
                assert(g.children_of(c)[k] == x);
                assert(shows_option(gi, x, options[k], value, mi, k));
                assert(x != c);
                assert(x != b);
                assert(g.widget(x) == gi.widget(x));
                if gi.children_of(x).len() > 0 {
                    gi.lemma_children_live(x);
                    let f = gi.children_of(x)[0];
                    assert(gi.live(f));
                    if f != c {
                        assert(g.widget(f) == gi.widget(f));
                    }
                }
            }
        }
    }

    /// Once the button `b` of the option `i` is put last among the children of the dropdown
    /// button `sid`, the buttons of the options before it still show their options, and so does
    /// `b`.
    /// Marking nothing, or the children of `sid` other than `main`, keeps every mark made since
    /// `from` a mark of such a child, where the children of `sid` are kept.
    proof fn lemma_marks_step(g: Gui, gi: Gui, from: nat, sid: Id, main: Id)
        requires
            marks_only_list(gi, from, sid, main),
            from <= gi.removal_queue().len(),
            g.removal_queue() == gi.removal_queue() || g.removal_queue() == gi.removal_queue() + gi.children_of(sid).filter(|c: Id| c != main),
            forall|x: Id| gi.children_of(sid).contains(x) ==> #[trigger] g.children_of(sid).contains(x),
        ensures
            marks_only_list(g, from, sid, main),
    {
        let kept = gi.children_of(sid).filter(|c: Id| c != main);
        assert forall|k: int| from <= k < g.removal_queue().len() implies g.children_of(sid).contains(#[trigger] g.removal_queue()[k])
            && g.removal_queue()[k] != main by {
            if k < gi.removal_queue().len() {
                assert(g.removal_queue()[k] == gi.removal_queue()[k]);
            } else {
                let x = g.removal_queue()[k];
                assert(kept[k - gi.removal_queue().len()] == x);
                assert(kept.contains(x));
                gi.children_of(sid).lemma_filter_contains_rev(|c: Id| c != main, x);
                broadcast use vstd::seq_lib::group_filter_ensures;
            }
        }
    }

    /// The list of a select shown in `g2` stays shown where only the select itself changes, and
    /// reads the same against a gui `g0` with the same children of `sid` and no more widgets
    /// than `g1`.
    proof fn lemma_select_list_kept(g: Gui, g2: Gui, g1: Gui, g0: Gui, sid: Id, c: Id, opt: Seq<(usize, usize)>, options: Seq<SelectOption>, value: Option<Seq<char>>)
        requires
            g2.wf(),
            g2.live(sid),
            g1.live(sid),
            select_list_shown(g2, g1, sid, c, opt, options, value),
            g.children_of(sid) == g2.children_of(sid),
            forall|y: Id| #[trigger] g.live(y) == g2.live(y),
            forall|y: Id| y != sid && g2.live(y) ==> #[trigger] g.widget(y) == g2.widget(y),
            g1.children_of(sid) == g0.children_of(sid),
            forall|y: Id| #[trigger] g0.live(y) ==> g1.live(y),
        ensures
            select_list_shown(g, g0, sid, c, opt, options, value),
    {
        assert(c != sid);
        assert(g.widget(c) == g2.widget(c));
        assert(g2.children_ok(sid));
        assert(g2.children_of(sid).contains(c)) by {
            assert(g2.children_of(sid)[g2.children_of(sid).len() - 1] == c);
        }
        assert(sid < c);
        assert(g2.children_ok(c));
        assert forall|k: int| 0 <= k < options.len() implies #[trigger] shows_option(g, g.children_of(c)[k], options[k], value, opt, k) by {
            let b = g2.children_of(c)[k];
            assert(shows_option(g2, b, options[k], value, opt, k));
            assert(c < b);
            assert(g.widget(b) == g2.widget(b));
            if g2.children_of(b).len() > 0 {
                g2.lemma_children_live(b);
                let f = g2.children_of(b)[0];
                assert(g2.children_ok(b));
                assert(b < f);
                assert(g2.live(f));
                assert(g.widget(f) == g2.widget(f));
            }
        }
    }

    /// The list of a dropdown button shown in `g2` stays shown where only the dropdown button
    /// itself changes, and reads the same against a gui `g0` with the same children of `sid` and
    /// no more widgets than `g1`.
    proof fn lemma_dropdown_list_kept(g: Gui, g2: Gui, g1: Gui, g0: Gui, sid: Id, opt: Seq<(usize, usize)>, options: Seq<DropdownOption>)
        requires
            g2.wf(),
            g2.live(sid),
            g1.live(sid),
            dropdown_list_shown(g2, g1, sid, opt, options),
            g.children_of(sid) == g2.children_of(sid),
            forall|y: Id| #[trigger] g.live(y) == g2.live(y),
            forall|y: Id| y != sid && g2.live(y) ==> #[trigger] g.widget(y) == g2.widget(y),
            g1.children_of(sid) == g0.children_of(sid),
            forall|y: Id| #[trigger] g0.live(y) ==> g1.live(y),
        ensures
            dropdown_list_shown(g, g0, sid, opt, options),
    {
        let n0 = g1.children_of(sid).len();
        assert forall|k: int| 0 <= k < options.len() implies !g0.live(#[trigger] g.children_of(sid)[n0 + k])
            && shows_dropdown_option(g, g.children_of(sid)[n0 + k], options[k], opt, k) by {
            let b = g2.children_of(sid)[n0 + k];
            assert(shows_dropdown_option(g2, b, options[k], opt, k));
            assert(!g1.live(b));
            assert(b != sid);
            assert(g.widget(b) == g2.widget(b));
            assert(g2.children_ok(sid));
            assert(g2.children_of(sid).contains(b)) by {
                assert(g2.children_of(sid)[n0 + k] == b);
            }
            assert(sid < b);
            if g2.children_of(b).len() > 0 {
                g2.lemma_children_live(b);
                let f = g2.children_of(b)[0];
                assert(g2.children_ok(b));
                assert(b < f);
                assert(g2.live(f));
                assert(g.widget(f) == g2.widget(f));
            }
        }
    }

    proof fn lemma_dropdown_step(g: Gui, gi: Gui, g0: Gui, sid: Id, b: Id, mi: Seq<(usize, usize)>, m: Seq<(usize, usize)>,
        options: Seq<DropdownOption>, i: int)
        requires
            gi.wf(),
            gi.live(sid),
            g.kind(sid) == gi.kind(sid),
            !gi.live(b),
            forall|y: Id| #[trigger] g0.live(y) ==> gi.live(y),
            0 <= i < options.len(),
            i < usize::MAX,
            gi.children_of(sid).len() == g0.children_of(sid).len() + i,
            gi.children_of(sid).take(g0.children_of(sid).len() as int) == g0.children_of(sid),
            forall|k: int| 0 <= k < i ==> !g0.live(#[trigger] gi.children_of(sid)[g0.children_of(sid).len() + k])
                && shows_dropdown_option(gi, gi.children_of(sid)[g0.children_of(sid).len() + k], options[k], mi, k),
            g.children_of(sid) == gi.children_of(sid).push(b),
            forall|y: Id| #[trigger] gi.live(y) ==> g.live(y),
            forall|y: Id| gi.live(y) && y != sid ==> #[trigger] g.widget(y) == gi.widget(y),
            forall|x: Id| x != b ==> #[trigger] opt_lookup(m, x) == opt_lookup(mi, x),
            shows_dropdown_option(g, b, options[i], m, i),
        ensures
            g.children_of(sid).len() == g0.children_of(sid).len() + i + 1,
            g.children_of(sid).take(g0.children_of(sid).len() as int) == g0.children_of(sid),
            forall|k: int| 0 <= k < i + 1 ==> !g0.live(#[trigger] g.children_of(sid)[g0.children_of(sid).len() + k])
                && shows_dropdown_option(g, g.children_of(sid)[g0.children_of(sid).len() + k], options[k], m, k),
    {
        let n0 = g0.children_of(sid).len();
        assert(g.children_of(sid).take(n0 as int) =~= g0.children_of(sid)) by {
            assert forall|j: int| 0 <= j < n0 implies g.children_of(sid)[j] == g0.children_of(sid)[j] by {
                assert(gi.children_of(sid).take(n0 as int)[j] == gi.children_of(sid)[j]);
            }
        }
        assert forall|k: int| 0 <= k < i + 1 implies !g0.live(#[trigger] g.children_of(sid)[n0 + k])
            && shows_dropdown_option(g, g.children_of(sid)[n0 + k], options[k], m, k) by {
            if k < i {
                let x = gi.children_of(sid)[n0 + k];
                assert(g.children_of(sid)[n0 + k] == x);
                assert(shows_dropdown_option(gi, x, options[k], mi, k));
                assert(x != sid);
                assert(x != b);
                assert(g.widget(x) == gi.widget(x));
                if gi.children_of(x).len() > 0 {
                    gi.lemma_children_live(x);
                    let f = gi.children_of(x)[0];
                    assert(gi.live(f));
                    if f != sid {
                        assert(g.widget(f) == gi.widget(f));
                    }
                }
            } else {
                assert(g.children_of(sid)[n0 + k] == b);
                assert(!g0.live(b));
            }
        }
    }

    /// Opens the list of a select whose data `s` is held outside the tree while the widget
    /// `sid` holds a placeholder: a container below `sid`, and in it one toggle button per
    /// option, showing the option's name and switched on where the option's value is the
    /// select's value. Each button is entered in the option map with the index of its option.
    /// Stops early where the ids run out.
    #[verifier::rlimit(60)]
    fn select_open(&mut self, sid: Id, s: &mut Select)
        requires
            old(self).wf(),
            old(self).live(sid),
            sid != ROOT,
        ensures
            final(self).grows_within(old(self), sid),
            final(self).keeps_pointer_state(old(self)),
            final(self).no_pointer_events_since(old(self).pending().len()),
            final(self).removal_queue() == old(self).removal_queue(),
            final(s).options == old(s).options,
            final(s).value == old(s).value,
            final(s).main_button_id == old(s).main_button_id,
            forall|k: Id| k <= old(self).last_id() ==> #[trigger] opt_lookup(option_entries(final(s).opt_map), k) == opt_lookup(option_entries(old(s).opt_map), k),
            forall|e: Event| #[trigger] final(self).pending().subrange(old(self).pending().len() as int, final(self).pending().len() as int).contains(e) ==> e.id != sid,
            forall|y: Id| old(self).live(y) && y != sid ==> #[trigger] final(self).widget(y) == old(self).widget(y),
            forall|x: Id| old(self).children_of(sid).contains(x) ==> #[trigger] final(self).children_of(sid).contains(x),
            room_for_list(*old(self), old(s).options@.len()) ==> forall|k: int| 0 <= k < old(s).options@.len()
                ==> has_option_button(*final(self), *old(self), sid, option_entries(final(s).opt_map), k),
            room_for_list(*old(self), old(s).options@.len()) ==> exists|c: Id| #[trigger] select_list_shown(*final(self), *old(self), sid, c,
                option_entries(final(s).opt_map), old(s).options@, opt_str(old(s).value)),
    {
        let ghost g0 = *self;
        let ghost s0 = *s;
        proof {
            self.lemma_grows_refl(sid);
            assert(self.pending().subrange(g0.pending().len() as int, self.pending().len() as int) =~= Seq::<Event>::empty());
        }
        let c = match self.insert_widget(sid, WidgetKind::Container(Container::new())) {
            Some(c) => c,
            None => {
                proof {
                    assert(!room_for_list(g0, s0.options@.len()));
                }
                return;
            },
        };
        proof {
            self.lemma_inserted_grows(&g0, sid, c, WidgetKind::Container(Container), sid);
            assert(self.children_of(c) =~= Seq::<Id>::empty());
            assert forall|x: Id| g0.children_of(sid).contains(x) implies #[trigger] self.children_of(sid).contains(x) by {
                let j = choose|j: int| 0 <= j < g0.children_of(sid).len() && g0.children_of(sid)[j] == x;
                assert(self.children_of(sid)[j] == x);
            }
            assert(self.pending().subrange(g0.pending().len() as int, self.pending().len() as int) =~= seq![Event { id: c, kind: EventKind::New }]);
        }
        let mut i: usize = 0;
        while i < s.options.len()
            invariant
                g0 == *old(self),
                s0 == *old(s),
                g0.wf(),
                g0.live(sid),
                sid != ROOT,
                self.grows_within(&g0, sid),
                self.keeps_pointer_state(&g0),
                self.no_pointer_events_since(g0.pending().len()),
                self.live(c),
                self.in_subtree(sid, c),
                c != sid,
                g0.last_id() < c,
                self.removal_queue() == g0.removal_queue(),
                s.options == s0.options,
                s.value == s0.value,
                s.main_button_id == s0.main_button_id,
                forall|k: Id| k <= g0.last_id() ==> #[trigger] opt_lookup(option_entries(s.opt_map), k) == opt_lookup(option_entries(s0.opt_map), k),
                forall|e: Event| #[trigger] self.pending().subrange(g0.pending().len() as int, self.pending().len() as int).contains(e) ==> e.id != sid,
                forall|y: Id| g0.live(y) && y != sid ==> #[trigger] self.widget(y) == g0.widget(y),
                i <= s.options@.len(),
                forall|x: Id| g0.children_of(sid).contains(x) ==> #[trigger] self.children_of(sid).contains(x),
                self.kind(c) is Container,
                room_for_list(g0, s0.options@.len()) ==> self.last_id() == g0.last_id() + 1 + 2 * i,
                room_for_list(g0, s0.options@.len()) ==> forall|k: int| 0 <= k < i
                    ==> has_option_button(*self, g0, sid, option_entries(s.opt_map), k),
                self.children_of(sid) == g0.children_of(sid).push(c),
                !g0.live(c),
                room_for_list(g0, s0.options@.len()) ==> self.children_of(c).len() == i,
                room_for_list(g0, s0.options@.len()) ==> forall|k: int| 0 <= k < i
                    ==> #[trigger] shows_option(*self, self.children_of(c)[k], s0.options@[k], opt_str(s0.value), option_entries(s.opt_map), k),
            decreases s.options@.len() - i,
        {
            let ghost gi = *self;
            let ghost mi = option_entries(s.opt_map);
            let b = match self.insert_widget(c, WidgetKind::ToggleButton(ToggleButton::new())) {
                Some(b) => b,
                None => {
                    proof {
                        assert(!room_for_list(g0, s0.options@.len()));
                    }
                    return;
                },
            };
            let ghost gb = *self;
            let ghost mut added: Seq<Event> = Gui::new_events(b, WidgetKind::ToggleButton(ToggleButton { state: false }));
            proof {
                assert(gi.live(sid));
                assert forall|y: Id| g0.live(y) && y != sid implies #[trigger] self.widget(y) == g0.widget(y) by {
                    assert(y <= g0.last_id());
                    assert(gi.widget(y) == g0.widget(y));
                }
                self.lemma_inserted_grows(&gi, c, b, WidgetKind::ToggleButton(ToggleButton { state: false }), c);
                self.lemma_grows_widen(&gi, c, sid);
                assert(self.in_subtree(c, b));
                Gui::lemma_subtree_trans(*self, sid, c, b);
                assert(self.in_subtree(b, (b + 1) as Id));
                Gui::lemma_subtree_trans(*self, sid, b, (b + 1) as Id);
            }
            let name = s.options[i].name.clone();
            let ch = self.set_field(b + 1, &TextFieldTextLens, name);
            let ghost gt = *self;
            proof {
                self.lemma_field_put_grows(&gb, (b + 1) as Id, TextFieldTextLens, name@);
                self.lemma_grows_widen(&gb, (b + 1) as Id, sid);
                self.lemma_grows_trans(&gb, &gi, sid);
                if ch {
                    added = added.push(Event { id: (b + 1) as Id, kind: EventKind::Change { field: FieldId(Field::TextFieldText) } });
                }
                assert(self.pending() =~= gi.pending() + added);
                self.lemma_grows_keeps_subtree(&gb, sid, b);
            }
            if crate::lens::opt_string_eq(&s.value, &s.options[i].value) {
                let ch2 = self.set_field(b, &ToggleButtonStateLens, true);
                proof {
                    self.lemma_field_put_grows(&gt, b, ToggleButtonStateLens, true);
                    self.lemma_grows_widen(&gt, b, sid);
                    self.lemma_grows_trans(&gt, &gi, sid);
                    if ch2 {
                        added = added.push(Event { id: b, kind: EventKind::Change { field: FieldId(Field::ToggleButtonState) } });
                    }
                    assert(self.pending() =~= gi.pending() + added);
                }
            }
            let ghost m0 = option_entries(s.opt_map);
            options_insert(&mut s.opt_map, b, i);
            proof {
                assert forall|y: Id| gi.live(y) && y != c implies #[trigger] self.widget(y) == gi.widget(y) by {
                    assert(y <= gi.last_id());
                    assert(gb.widget(y) == gi.widget(y));
                    assert(gt.widget(y) == gb.widget(y));
                }
                assert(self.kind(b) is ToggleButton);
                assert(gi.last_id() >= g0.last_id());
                if room_for_list(g0, s0.options@.len()) {
                    Gui::lemma_option_buttons_grow(*self, gi, g0, sid, c, b, mi, option_entries(s.opt_map), i as int);
                    lemma_lookup_insert_same(mi, b, i);
                    assert(self.children_of(b) == gb.children_of(b));
                    assert(self.widget((b + 1) as Id) == gt.widget((b + 1) as Id));
                    assert(shows_option(*self, b, s0.options@[i as int], opt_str(s0.value), option_entries(s.opt_map), i as int));
                    assert forall|x: Id| x != b implies #[trigger] opt_lookup(option_entries(s.opt_map), x) == opt_lookup(mi, x) by {
                        lemma_lookup_insert_other(mi, b, i, x);
                    }
                    Gui::lemma_list_step(*self, gi, c, b, mi, option_entries(s.opt_map), s0.options@, opt_str(s0.value), i as int);
                }
                assert(self.children_of(sid) == gi.children_of(sid));
                assert forall|k: Id| k <= g0.last_id() implies #[trigger] opt_lookup(option_entries(s.opt_map), k) == opt_lookup(option_entries(s0.opt_map), k) by {
                    lemma_lookup_insert_other(m0, b, i, k);
                }
                self.lemma_grows_keeps_subtree(&gi, sid, c);
                self.lemma_grows_trans(&gi, &g0, sid);
                assert forall|j: int| 0 <= j < added.len() implies (#[trigger] added[j]).id >= b by {}
                assert forall|e: Event| #[trigger] self.pending().subrange(g0.pending().len() as int, self.pending().len() as int).contains(e) implies e.id != sid by {
                    let all = self.pending().subrange(g0.pending().len() as int, self.pending().len() as int);
                    let before = gi.pending().subrange(g0.pending().len() as int, gi.pending().len() as int);
                    assert(all =~= before + added);
                    let j = choose|j: int| 0 <= j < all.len() && all[j] == e;
                    assert(gi.live(c) && gi.live(sid));
                    assert(sid <= gi.last_id() && b == gi.last_id() + 1);
                    if j >= before.len() {
                        assert(added[j - before.len()] == e);
                    } else {
                        assert(before[j] == e);
                        assert(before.contains(e));
                    }
                }
            }
            i += 1;
        }
        proof {
            if room_for_list(g0, s0.options@.len()) {
                assert(select_list_shown(*self, g0, sid, c, option_entries(s.opt_map), s0.options@, opt_str(s0.value)));
            }
        }
    }
}


/// The event announcing that the state of the toggle button `main` changed.
pub open spec fn toggled(main: Id) -> Event {
    Event { id: main, kind: EventKind::Change { field: FieldId(Field::ToggleButtonState) } }
}

/// The option chosen by the events `local[i..]`, handled by a drop-down list whose main button
/// is `main`, whose option map holds `opt` and which has `n` options: the option of the first
/// press on one of its option buttons, unless a change of the main button's state comes first
/// that closes the list (where `closing`).
pub open spec fn chosen_option(local: Seq<Event>, i: int, main: Id, closing: bool, opt: Seq<(usize, usize)>, n: nat) -> Option<usize>
    decreases local.len() - i,
{
    if 0 <= i < local.len() {
        if closing && local[i] == toggled(main) {
            None
        } else if local[i].kind == EventKind::Press && opt_lookup(opt, local[i].id) is Some
            && opt_lookup(opt, local[i].id).unwrap() < n {
            opt_lookup(opt, local[i].id)
        } else {
            chosen_option(local, i + 1, main, closing, opt, n)
        }
    } else {
        None
    }
}

/// The value of a select with options `options` and value `value` once the option `chosen`
/// (if any) was chosen.
pub open spec fn chosen_value(options: Seq<SelectOption>, value: Option<Seq<char>>, chosen: Option<usize>) -> Option<Seq<char>> {
    match chosen {
        Some(x) => opt_str(options[x as int].value),
        None => value,
    }
}

impl Gui {
    /// Whether `main` can serve as the main button of the list `sid`: a toggle button among its
    /// children.
    pub open spec fn main_ok(&self, sid: Id, main: Id) -> bool {
        &&& main != sid
        &&& self.children_of(sid).contains(main)
        &&& self.kind(main) is ToggleButton
    }

    /// Closes the list `sid`: marks every child of `sid` but the main button `main` for removal,
    /// and empties the option map.
    fn list_close(&mut self, sid: Id, main: Id, opt_map: &mut IndexMap<Id, usize>)
        requires
            old(self).wf(),
            old(self).live(sid),
        ensures
            final(self).grows_within(old(self), sid),
            final(self).keeps_pointer_state(old(self)),
            final(self).no_pointer_events_since(old(self).pending().len()),
            final(self).same_tree(old(self)),
            final(self).pending() == old(self).pending(),
            option_entries(*final(opt_map)) == Seq::<(usize, usize)>::empty(),
            forall|c: Id| old(self).children_of(sid).contains(c) && c != main ==> #[trigger] final(self).removal_queue().contains(c),
            final(self).removal_queue() == old(self).removal_queue() + old(self).children_of(sid).filter(|c: Id| c != main),
    {
        let ghost g0 = *self;
        self.mark_children_except(sid, main);
        proof {
            let kept = g0.children_of(sid).filter(|c: Id| c != main);
            assert forall|c: Id| g0.children_of(sid).contains(c) && c != main implies #[trigger] self.removal_queue().contains(c) by {
                let j = choose|j: int| 0 <= j < g0.children_of(sid).len() && g0.children_of(sid)[j] == c;
                g0.children_of(sid).lemma_filter_contains(|c: Id| c != main, j);
                let k = choose|k: int| 0 <= k < kept.len() && kept[k] == c;
                assert(self.removal_queue()[g0.removal_queue().len() + k] == c);
            }
        }
        *opt_map = options_new();
    }

    /// A gui that grew within `sid` from a gui where `sid` held a placeholder, with the
    /// placeholder replaced again by a widget with what the first one captured, grew within
    /// `sid` from the gui before the placeholder.
    proof fn lemma_placeholder_grows(&self, g2: &Gui, g1: &Gui, g0: &Gui, sid: Id)
        requires
            g0.wf(),
            g0.live(sid),
            g1.wf(),
            g1.table_len() == g0.table_len(),
            g1.last_id() == g0.last_id(),
            forall|y: Id| #[trigger] g1.live(y) == g0.live(y),
            forall|y: Id| y != sid && g0.live(y) ==> #[trigger] g1.widget(y) == g0.widget(y),
            g1.path_map() == g0.path_map(),
            g1.pending() == g0.pending(),
            g1.removal_queue() == g0.removal_queue(),
            g1.alias_map() == g0.alias_map(),
            g2.grows_within(g1, sid),
            self.wf(),
            self.table_len() == g2.table_len(),
            self.last_id() == g2.last_id(),
            forall|y: Id| #[trigger] self.live(y) == g2.live(y),
            forall|y: Id| y != sid && g2.live(y) ==> #[trigger] self.widget(y) == g2.widget(y),
            self.kind(sid).spec_captures() == g0.kind(sid).spec_captures(),
            self.path_map() == g2.path_map(),
            self.pending() == g2.pending(),
            self.removal_queue() == g2.removal_queue(),
            self.alias_map() == g2.alias_map(),
        ensures
            self.grows_within(g0, sid),
    {
        assert forall|y: Id| #[trigger] g0.live(y) implies self.live(y) by {
            assert(g1.live(y));
            assert(g2.live(y));
        }
        assert forall|y: Id| #[trigger] self.live(y) && !g0.live(y) implies g0.last_id() < y && self.in_subtree(sid, y) by {
            assert(g2.in_subtree(sid, y));
        }
        assert forall|y: Id| g0.live(y) && !g0.in_subtree(sid, y) implies #[trigger] self.widget(y) == g0.widget(y) by {
            assert(g1.live(y));
            assert(!g1.in_subtree(sid, y));
            assert(g2.widget(y) == g1.widget(y));
        }
        assert forall|y: Id| #[trigger] g0.live(y) implies self.kind(y).spec_captures() == g0.kind(y).spec_captures() by {
            if y != sid {
                assert(g1.live(y));
                assert(g2.kind(y).spec_captures() == g1.kind(y).spec_captures());
            }
        }
        assert forall|y: Id| #[trigger] g0.has_path(y) implies self.path(y) == g0.path(y) by {
            assert(g1.has_path(y));
        }
        assert forall|i: int| g0.pending().len() <= i < self.pending().len() implies self.live(#[trigger] self.pending()[i].id) by {
            assert(g2.live(g2.pending()[i].id));
        }
    }
}


/// The event announcing that the value of the select `sid` changed.
pub open spec fn select_changed(sid: Id) -> Event {
    Event { id: sid, kind: EventKind::Change { field: FieldId(Field::SelectValue) } }
}

/// An event is among `a + b` exactly where it is among `a` or among `b`.
pub(crate) proof fn lemma_contains_concat(a: Seq<Event>, b: Seq<Event>, e: Event)
    ensures
        (a + b).contains(e) <==> (a.contains(e) || b.contains(e)),
{
    if (a + b).contains(e) {
        let j = choose|j: int| 0 <= j < (a + b).len() && (a + b)[j] == e;
        if j >= a.len() {
            assert(b[j - a.len()] == e);
        } else {
            assert(a[j] == e);
        }
    }
    if a.contains(e) {
        let j = choose|j: int| 0 <= j < a.len() && a[j] == e;
        assert((a + b)[j] == e);
    }
    if b.contains(e) {
        let j = choose|j: int| 0 <= j < b.len() && b[j] == e;
        assert((a + b)[a.len() + j] == e);
    }
}

impl Gui {
    /// What the removal queue of `old` holds, a queue that only grew from it holds too.
    proof fn lemma_queue_keeps(&self, old: &Gui, x: Id)
        requires
            old.removal_queue().len() <= self.removal_queue().len(),
            self.removal_queue().take(old.removal_queue().len() as int) == old.removal_queue(),
            old.removal_queue().contains(x),
        ensures
            self.removal_queue().contains(x),
    {
        let j = choose|j: int| 0 <= j < old.removal_queue().len() && old.removal_queue()[j] == x;
        assert(self.removal_queue().take(old.removal_queue().len() as int)[j] == self.removal_queue()[j]);
    }
}

/// The first `i + 1` events of `s` hold `e` exactly where the first `i` do or the `i`-th is `e`.
proof fn lemma_take_contains(s: Seq<Event>, i: int, e: Event)
    requires
        0 <= i < s.len(),
    ensures
        s.take(i + 1).contains(e) <==> (s.take(i).contains(e) || s[i] == e),
{
    assert(s.take(i + 1) =~= s.take(i).push(s[i]));
    lemma_contains_concat(s.take(i), seq![s[i]], e);
    assert(s.take(i).push(s[i]) =~= s.take(i) + seq![s[i]]);
    assert(seq![s[i]].contains(e) <==> s[i] == e) by {
        if seq![s[i]].contains(e) {
            let j = choose|j: int| 0 <= j < 1 && seq![s[i]][j] == e;
        }
        if s[i] == e {
            assert(seq![s[i]][0] == e);
        }
    }
}

/// The events of `s` about `sid` that the mouse did not cause, where no event of `s` is about
/// `sid`, are none.
pub(crate) proof fn lemma_no_other_about(s: Seq<Event>, sid: Id)
    requires
        forall|e: Event| #[trigger] s.contains(e) ==> e.id != sid,
    ensures
        other_events_of(s, sid) == Seq::<Event>::empty(),
    decreases s.len(),
{
    reveal_with_fuel(Seq::filter, 1);
    if s.len() > 0 {
        assert forall|e: Event| #[trigger] s.drop_last().contains(e) implies e.id != sid by {
            let k = choose|k: int| 0 <= k < s.drop_last().len() && s.drop_last()[k] == e;
            assert(s[k] == e);
            assert(s.contains(s[k]));
        }
        lemma_no_other_about(s.drop_last(), sid);
        assert(s.contains(s[s.len() - 1]));
    }
}

/// The events about `sid` that the mouse did not cause, collected from `old` to `g`, are those
/// collected from `old` to `mid` and then from `mid` to `g`.
pub(crate) proof fn lemma_other_split(g: Gui, mid: Gui, old: Gui, sid: Id)
    requires
        old.pending().len() <= mid.pending().len() <= g.pending().len(),
        g.pending().take(mid.pending().len() as int) == mid.pending(),
    ensures
        other_events_of(g.pending_since(old.pending().len()), sid)
            == other_events_of(mid.pending_since(old.pending().len()), sid) + other_events_of(g.pending_since(mid.pending().len()), sid),
{
    lemma_since_split(g, mid, old);
    Seq::filter_distributes_over_add(mid.pending_since(old.pending().len()), g.pending_since(mid.pending().len()), caused_other(sid));
}

/// A field set on a widget other than `sid` adds no event about `sid`.
pub(crate) proof fn lemma_field_put_not_about<L: crate::lens::WritableLens>(g: Gui, old: Gui, x: Id, lens: L, v: <L::Target as DeepView>::V, sid: Id)
    requires
        g.field_put(&old, x, lens, v),
        x != sid,
    ensures
        other_events_of(g.pending_since(old.pending().len()), sid) == Seq::<Event>::empty(),
        old.pending().len() <= g.pending().len(),
        g.pending().take(old.pending().len() as int) == old.pending(),
{
    assert(g.pending().take(old.pending().len() as int) =~= old.pending());
    lemma_no_other_about(g.pending_since(old.pending().len()), sid);
}

/// The events collected between two states of a gui whose pending events only grew.
pub(crate) proof fn lemma_since_split(g: Gui, mid: Gui, old: Gui)
    requires
        old.pending().len() <= mid.pending().len() <= g.pending().len(),
        g.pending().take(mid.pending().len() as int) == mid.pending(),
    ensures
        g.pending_since(old.pending().len()) == mid.pending_since(old.pending().len()) + g.pending_since(mid.pending().len()),
{
    assert forall|j: int| 0 <= j < mid.pending().len() implies g.pending()[j] == mid.pending()[j] by {
        assert(g.pending().take(mid.pending().len() as int)[j] == g.pending()[j]);
    }
    assert(g.pending_since(old.pending().len()) =~= mid.pending_since(old.pending().len()) + g.pending_since(mid.pending().len()));
}

impl Gui {
    /// The events collected since `len` events were pending.
    pub open spec fn pending_since(&self, len: nat) -> Seq<Event> {
        self.pending().subrange(len as int, self.pending().len() as int)
    }

    /// The work of the select `sid` in an update, where `local` are the events of its part of
    /// the tree in this update. A change of its main button's state opens the list (where the
    /// main button is on) or closes it (where it is off); a press on an option button makes that
    /// option's value the select's value (with a `Change` of `Select::value` where it differs),
    /// switches the main button off, shows the option's name on it, and closes the list. Where
    /// the main button is off when the select works, each option button is switched on exactly
    /// where its option holds the select's value. Where the list opens and no option is chosen,
    /// the option map names a new button below the select for each option (while ids are left),
    /// and where the main button changed once, the list is shown as `select_open` shows it;
    /// where it closes, every child of the select but the main button is marked for removal. The
    /// only event about the select itself is that `Change`. Nothing happens where the main
    /// button is not a toggle button among the select's children.
    pub(crate) fn select_update(&mut self, sid: Id, local: &Vec<Event>)
        requires
            old(self).wf(),
            old(self).live(sid),
            sid != ROOT,
            old(self).kind(sid) is Select,
            forall|k: int| 0 <= k < local@.len() ==> #[trigger] local@[k].id <= old(self).last_id(),
        ensures
            final(self).grows_within(old(self), sid),
            final(self).keeps_pointer_state(old(self)),
            final(self).no_pointer_events_since(old(self).pending().len()),
            ({
                let s0 = old(self).kind(sid)->Select_0;
                let main = s0.main_button_id;
                let chosen = chosen_option(local@, 0, main, !old(self).toggle_state(main), option_entries(s0.opt_map), s0.options@.len());
                &&& final(self).kind(sid) is Select
                &&& final(self).kind(sid)->Select_0.options == s0.options
                &&& final(self).kind(sid)->Select_0.main_button_id == main
                &&& final(self).kind(sid)->Select_0.spec_value() == (if old(self).main_ok(sid, main) {
                    chosen_value(s0.options@, s0.spec_value(), chosen)
                } else {
                    s0.spec_value()
                })
                &&& (final(self).pending_since(old(self).pending().len()).contains(select_changed(sid))
                    <==> final(self).kind(sid)->Select_0.spec_value() != s0.spec_value())
                &&& (old(self).main_ok(sid, main) && old(self).toggle_state(main) && local@.contains(toggled(main)) && chosen is None
                    && room_for_list(*old(self), s0.options@.len()) ==> forall|k: int| 0 <= k < s0.options@.len()
                    ==> #[trigger] has_option_button(*final(self), *old(self), sid, option_entries(final(self).kind(sid)->Select_0.opt_map), k))
                &&& (old(self).main_ok(sid, main) && ((!old(self).toggle_state(main) && local@.contains(toggled(main))) || chosen is Some)
                    ==> forall|c: Id| old(self).children_of(sid).contains(c) && c != main ==> #[trigger] final(self).removal_queue().contains(c))
                &&& (old(self).main_ok(sid, main) && chosen is Some ==> !final(self).toggle_state(main)
                    && (text_child(*final(self), main) ==> shows_text(*final(self), main, s0.options@[chosen.unwrap() as int].name@)))
                &&& (old(self).main_ok(sid, main) && ((!old(self).toggle_state(main) && (local@.contains(toggled(main)) || chosen is Some))
                    || (chosen is Some && !local@.contains(toggled(main))))
                    ==> option_entries(final(self).kind(sid)->Select_0.opt_map) == Seq::<(usize, usize)>::empty())
                &&& marks_only_list(*final(self), old(self).removal_queue().len(), sid, main)
                &&& other_events_of(final(self).pending_since(old(self).pending().len()), sid) == (if final(self).kind(sid)->Select_0.spec_value() != s0.spec_value() {
                    seq![select_changed(sid)]
                } else {
                    Seq::<Event>::empty()
                })
                &&& (old(self).main_ok(sid, main) && old(self).toggle_state(main) && local@.contains(toggled(main)) && at_most_once(local@, toggled(main))
                    && chosen is None && room_for_list(*old(self), s0.options@.len())
                    ==> exists|c: Id| #[trigger] select_list_shown(*final(self), *old(self), sid, c,
                        option_entries(final(self).kind(sid)->Select_0.opt_map), s0.options@, s0.spec_value()))
                &&& (old(self).main_ok(sid, main) && !old(self).toggle_state(main) ==> option_states_shown(*final(self), sid,
                    option_entries(final(self).kind(sid)->Select_0.opt_map), s0.options@, final(self).kind(sid)->Select_0.spec_value()))
            }),
    {
        let ghost g0 = *self;
        let k = self.swap_inner(sid, WidgetKind::Container(Container::new()));
        let mut s = match k {
            WidgetKind::Select(s) => s,
            _ => {
                proof {
                    assert(false);
                }
                return;
            },
        };
        let ghost s0 = s;
        let ghost g1 = *self;
        let ghost n0 = g0.pending().len();
        proof {
            assert(self.pending_since(n0) =~= Seq::<Event>::empty());
            lemma_no_other_about(self.pending_since(n0), sid);
            self.lemma_grows_refl(sid);
        }
        let main = s.main_button_id;
        let main_child = main != sid && (ChildLens { id: main }).apply(self, sid).is_some() && match &self.widget_ref(main).inner {
            WidgetKind::ToggleButton(_) => true,
            _ => false,
        };
        if !main_child {
            self.swap_inner(sid, WidgetKind::Select(s));
            proof {
                assert(!g0.main_ok(sid, main)) by {
                    if g0.main_ok(sid, main) {
                        assert(g1.children_of(sid) == g0.children_of(sid));
                        assert(g0.kind(main) is ToggleButton);
                        g0.lemma_children_live(sid);
                        let j = choose|j: int| 0 <= j < g0.children_of(sid).len() && g0.children_of(sid)[j] == main;
                        assert(g0.live(g0.children_of(sid)[j]));
                        assert(g1.widget(main) == g0.widget(main));
                    }
                }
                self.lemma_placeholder_grows(&g1, &g1, &g0, sid);
                assert(self.pending_since(n0) =~= Seq::<Event>::empty());
            }
            return;
        }
        let is_open = match &self.widget_ref(main).inner {
            WidgetKind::ToggleButton(t) => !t.state,
            _ => true,
        };
        proof {
            g0.lemma_children_live(sid);
            assert(g1.children_of(sid) == g0.children_of(sid));
            assert(g0.live(main)) by {
                let j = choose|j: int| 0 <= j < g0.children_of(sid).len() && g0.children_of(sid)[j] == main;
                assert(g0.live(g0.children_of(sid)[j]));
            }
            assert(g1.widget(main) == g0.widget(main));
            assert(g0.main_ok(sid, main));
            assert(is_open == !g0.toggle_state(main));
            assert(g0.children_ok(sid));
            assert(g0.parent_of(main) == sid) by {
                let j = choose|j: int| 0 <= j < g0.children_of(sid).len() && g0.children_of(sid)[j] == main;
                assert(g0.children_of(sid)[j] == main);
            }
            assert(g0.parent_ok(main));
            assert(g0.in_subtree(sid, main)) by {
                assert(g0.path(main) == g0.path(sid).push(sid));
                assert(g0.path(main)[g0.path(sid).len() as int] == sid);
            }
            assert(g1.has_path(main));
            assert(g1.in_subtree(sid, main));
        }
        let ghost opt0 = option_entries(s0.opt_map);
        let ghost nopt = s0.options@.len();
        let ghost mut decided = false;
        let ghost mut picked: Option<usize> = None;
        let mut i: usize = 0;
        while i < local.len()
            invariant
                g0 == *old(self),
                g0.wf(),
                g0.live(sid),
                sid != ROOT,
                g1.wf(),
                g1.live(sid),
                g1.last_id() == g0.last_id(),
                g1.pending() == g0.pending(),
                forall|y: Id| #[trigger] g0.live(y) ==> g1.live(y),
                n0 == g0.pending().len(),
                self.grows_within(&g1, sid),
                self.keeps_pointer_state(&g1),
                self.no_pointer_events_since(g1.pending().len()),
                self.live(main),
                self.kind(main) is ToggleButton,
                self.in_subtree(sid, main),
                main != sid,
                i <= local@.len(),
                s.options == s0.options,
                s.main_button_id == main,
                opt0 == option_entries(s0.opt_map),
                nopt == s0.options@.len(),
                forall|k: int| 0 <= k < local@.len() ==> #[trigger] local@[k].id <= g0.last_id(),
                !decided ==> {
                    &&& opt_str(s.value) == opt_str(s0.value)
                    &&& forall|k: Id| k <= g0.last_id() ==> #[trigger] opt_lookup(option_entries(s.opt_map), k) == opt_lookup(opt0, k)
                    &&& chosen_option(local@, 0, main, is_open, opt0, nopt) == chosen_option(local@, i as int, main, is_open, opt0, nopt)
                },
                decided ==> {
                    &&& opt_str(s.value) == chosen_value(s0.options@, opt_str(s0.value), chosen_option(local@, 0, main, is_open, opt0, nopt))
                    &&& forall|k: Id| k <= g0.last_id() ==> #[trigger] opt_lookup(option_entries(s.opt_map), k) is None
                },
                self.pending_since(n0).contains(select_changed(sid)) <==> opt_str(s.value) != opt_str(s0.value),
                other_events_of(self.pending_since(n0), sid) == (if opt_str(s.value) != opt_str(s0.value) {
                    seq![select_changed(sid)]
                } else {
                    Seq::<Event>::empty()
                }),
                !is_open && decided ==> chosen_option(local@, 0, main, is_open, opt0, nopt) is Some,
                !decided && !(!is_open && local@.take(i as int).contains(toggled(main))) ==> self.last_id() == g0.last_id(),
                !is_open && !decided && local@.take(i as int).contains(toggled(main)) && room_for_list(g0, nopt)
                    ==> forall|k: int| 0 <= k < nopt ==> #[trigger] has_option_button(*self, g0, sid, option_entries(s.opt_map), k),
                forall|x: Id| g0.children_of(sid).contains(x) ==> #[trigger] self.children_of(sid).contains(x),
                is_open && local@.take(i as int).contains(toggled(main)) ==> decided,
                decided ==> forall|c: Id| g0.children_of(sid).contains(c) && c != main ==> #[trigger] self.removal_queue().contains(c),
                picked is Some ==> decided,
                decided && picked is None ==> chosen_option(local@, 0, main, is_open, opt0, nopt) is None,
                picked matches Some(k) ==> chosen_option(local@, 0, main, is_open, opt0, nopt) == Some(k) && k < nopt
                    && !self.toggle_state(main) && (text_child(*self, main) ==> shows_text(*self, main, s0.options@[k as int].name@)),
                decided && is_open ==> option_entries(s.opt_map) == Seq::<(usize, usize)>::empty(),
                picked is Some && !local@.contains(toggled(main)) ==> option_entries(s.opt_map) == Seq::<(usize, usize)>::empty(),
                !decided && !local@.take(i as int).contains(toggled(main)) ==> *self == g1 && s == s0,
                !is_open && !decided && local@.take(i as int).contains(toggled(main)) && at_most_once(local@, toggled(main))
                    && room_for_list(g0, nopt) ==> exists|c: Id| #[trigger] select_list_shown(*self, g1, sid, c, option_entries(s.opt_map), s0.options@, opt_str(s0.value)),
                g1.removal_queue() == g0.removal_queue(),
                marks_only_list(*self, g0.removal_queue().len(), sid, main),
            decreases local@.len() - i,
        {
            let e = local[i];
            let ghost gi = *self;
            let ghost vi = opt_str(s.value);
            let ghost mi = option_entries(s.opt_map);
            let ghost opened = !is_open && local@.take(i as int).contains(toggled(main));
            proof {
                assert(e.id <= g0.last_id());
                lemma_take_contains(local@, i as int, toggled(main));
                if opened && at_most_once(local@, toggled(main)) {
                    let a = choose|a: int| 0 <= a < local@.take(i as int).len() && local@.take(i as int)[a] == toggled(main);
                    assert(local@[a] == toggled(main));
                    assert(local@[i as int] != toggled(main));
                }
            }
            if e.id == main && e.kind == (EventKind::Change { field: FieldId(Field::ToggleButtonState) }) {
                if is_open {
                    self.list_close(sid, main, &mut s.opt_map);
                    proof {
                        assert forall|x: Id| gi.children_of(sid).contains(x) implies #[trigger] self.children_of(sid).contains(x) by {
                            assert(self.widget(sid) == gi.widget(sid));
                        }
                        Gui::lemma_marks_step(*self, gi, g0.removal_queue().len(), sid, main);
                        decided = true;
                    }
                } else {
                    self.select_open(sid, &mut s);
                    proof {
                        Gui::lemma_marks_step(*self, gi, g0.removal_queue().len(), sid, main);
                        if !decided && at_most_once(local@, toggled(main)) && room_for_list(g0, nopt) {
                            assert(!opened);
                            assert(gi == g1);
                            assert(room_for_list(gi, nopt));
                        }
                        lemma_since_split(*self, gi, g0);
                        lemma_other_split(*self, gi, g0, sid);
                        assert forall|ev: Event| #[trigger] self.pending_since(gi.pending().len()).contains(ev) implies ev.id != sid by {}
                        lemma_no_other_about(self.pending_since(gi.pending().len()), sid);
                        assert(other_events_of(gi.pending_since(n0), sid) + Seq::<Event>::empty() =~= other_events_of(gi.pending_since(n0), sid));
                        lemma_contains_concat(gi.pending_since(n0), self.pending_since(gi.pending().len()), select_changed(sid));
                        if !decided && room_for_list(g0, nopt) {
                            if opened {
                                Gui::lemma_option_buttons_kept(*self, gi, g0, sid, option_entries(s.opt_map), mi, nopt);
                            } else {
                                assert(room_for_list(gi, nopt));
                                assert forall|y: Id| #[trigger] g0.live(y) implies gi.live(y) by {
                                    assert(g1.live(y));
                                }
                                Gui::lemma_option_buttons_fresh(*self, gi, g0, sid, option_entries(s.opt_map), nopt);
                            }
                        }
                    }
                }
                proof {
                    self.lemma_grows_trans(&gi, &g1, sid);
                    self.lemma_no_pointer_trans(&gi, g1.pending().len());
                    self.lemma_grows_keeps_subtree(&gi, sid, main);
                    assert(self.widget(main) == gi.widget(main));
                    if gi.children_of(main).len() > 0 {
                        gi.lemma_children_live(main);
                        let f = gi.children_of(main)[0];
                        assert(gi.live(f));
                        assert(f != sid) by {
                            if f == sid {
                                assert(gi.children_of(main).contains(sid));
                                Gui::lemma_child(gi, main, sid);
                                Gui::lemma_subtree_antisym(gi, sid, main);
                            }
                        }
                        assert(self.widget(f) == gi.widget(f));
                    }
                    assert forall|x: Id| g0.children_of(sid).contains(x) implies #[trigger] self.children_of(sid).contains(x) by {
                        assert(gi.children_of(sid).contains(x));
                    }
                    if decided {
                        assert forall|c: Id| g0.children_of(sid).contains(c) && c != main implies #[trigger] self.removal_queue().contains(c) by {
                            assert(gi.children_of(sid).contains(c));
                            if gi.removal_queue().contains(c) {
                                self.lemma_queue_keeps(&gi, c);
                            }
                        }
                    }
                }
            }
            let ghost gj = *self;
            match crate::collections::options_get(&s.opt_map, e.id) {
                Some(idx) => {
                    if e.kind == EventKind::Press && idx < s.options.len() {
                        proof {
                            assert(!decided);
                            assert(local@[i as int] != toggled(main));
                            assert(chosen_option(local@, i as int, main, is_open, opt0, nopt) == Some(idx));
                        }
                        self.select_choose(sid, main, &mut s, idx);
                        proof {
                            Gui::lemma_marks_step(*self, gj, g0.removal_queue().len(), sid, main);
                            decided = true;
                            picked = Some(idx);
                            assert forall|x: Id| g0.children_of(sid).contains(x) implies #[trigger] self.children_of(sid).contains(x) by {
                                assert(gj.children_of(sid).contains(x));
                            }
                            assert forall|c: Id| g0.children_of(sid).contains(c) && c != main implies #[trigger] self.removal_queue().contains(c) by {
                                assert(gj.children_of(sid).contains(c));
                            }
                            self.lemma_grows_trans(&gj, &g1, sid);
                            self.lemma_no_pointer_trans(&gj, g1.pending().len());
                            lemma_since_split(*self, gj, g0);
                            lemma_contains_concat(gj.pending_since(n0), self.pending_since(gj.pending().len()), select_changed(sid));
                            lemma_other_split(*self, gj, g0, sid);
                            assert(Seq::<Event>::empty() + other_events_of(self.pending_since(gj.pending().len()), sid)
                                =~= other_events_of(self.pending_since(gj.pending().len()), sid));
                        }
                    }
                },
                None => {},
            }
            i += 1;
        }
        if is_open {
            let ghost gk = *self;
            self.select_show_value(sid, &s);
            proof {
                Gui::lemma_marks_step(*self, gk, g0.removal_queue().len(), sid, main);
                if decided {
                    assert forall|c: Id| g0.children_of(sid).contains(c) && c != main implies #[trigger] self.removal_queue().contains(c) by {
                        self.lemma_queue_keeps(&gk, c);
                    }
                }
                self.lemma_grows_trans(&gk, &g1, sid);
                self.lemma_no_pointer_trans(&gk, g1.pending().len());
                lemma_since_split(*self, gk, g0);
                lemma_contains_concat(gk.pending_since(n0), self.pending_since(gk.pending().len()), select_changed(sid));
                lemma_other_split(*self, gk, g0, sid);
                lemma_no_other_about(self.pending_since(gk.pending().len()), sid);
                assert(other_events_of(gk.pending_since(n0), sid) + Seq::<Event>::empty() =~= other_events_of(gk.pending_since(n0), sid));
            }
        }
        let ghost g2 = *self;
        let ghost sf = s;
        self.swap_inner(sid, WidgetKind::Select(s));
        proof {
            if !is_open && !decided && local@.contains(toggled(main)) && at_most_once(local@, toggled(main)) && room_for_list(g0, nopt) {
                assert(local@.take(local@.len() as int) =~= local@);
                assert forall|y: Id| #[trigger] g0.live(y) implies g1.live(y) by {}
                let c = choose|c: Id| #[trigger] select_list_shown(g2, g1, sid, c, option_entries(sf.opt_map), s0.options@, opt_str(s0.value));
                Gui::lemma_select_list_kept(*self, g2, g1, g0, sid, c, option_entries(sf.opt_map), s0.options@, opt_str(s0.value));
            }
            if is_open {
                let opt = option_entries(sf.opt_map);
                assert forall|j: int| 0 <= j < opt.len() && j < opt.len() && (#[trigger] opt[j]).1 < sf.options@.len() && opt[j].0 != sid && self.live(opt[j].0)
                    && self.in_subtree(sid, opt[j].0) && self.kind(opt[j].0) is ToggleButton
                    && (forall|j2: int| j < j2 < opt.len() && j2 < opt.len() ==> opt[j2].0 != opt[j].0)
                    implies self.toggle_state(opt[j].0) == (opt_str(sf.options@[opt[j].1 as int].value) == opt_str(sf.value)) by {
                    let b = opt[j].0;
                    assert(g2.live(b));
                    if b != ROOT {
                        assert(g2.has_path(b));
                    }
                    assert(g2.in_subtree(sid, b));
                    assert(self.widget(b) == g2.widget(b));
                }
                assert(option_states_shown(*self, sid, opt, sf.options@, opt_str(sf.value)));
            }
            self.lemma_placeholder_grows(&g2, &g1, &g0, sid);
            assert(local@.take(local@.len() as int) =~= local@);
            if !is_open && !decided && local@.contains(toggled(main)) && room_for_list(g0, nopt) {
                Gui::lemma_option_buttons_kept(*self, g2, g0, sid, option_entries(s.opt_map), option_entries(s.opt_map), nopt);
            }
        }
    }
}


impl Gui {
    /// Chooses the option `idx` of the select `sid`, whose data `s` is held outside the tree:
    /// shows the option's name on the main button `main` (where its first child is a text
    /// field), switches the main button off, takes the option's value (collecting a `Change` of
    /// `Select::value` where it differs from the value held), and closes the list.
    #[verifier::rlimit(30)]
    fn select_choose(&mut self, sid: Id, main: Id, s: &mut Select, idx: usize)
        requires
            old(self).wf(),
            old(self).live(sid),
            sid != ROOT,
            old(self).live(main),
            old(self).kind(main) is ToggleButton,
            old(self).in_subtree(sid, main),
            main != sid,
            idx < old(s).options@.len(),
        ensures
            final(self).grows_within(old(self), sid),
            final(self).keeps_pointer_state(old(self)),
            final(self).no_pointer_events_since(old(self).pending().len()),
            final(self).live(main),
            final(self).kind(main) is ToggleButton,
            !final(self).toggle_state(main),
            text_child(*final(self), main) ==> shows_text(*final(self), main, old(s).options@[idx as int].name@),
            final(self).in_subtree(sid, main),
            final(s).options == old(s).options,
            final(s).main_button_id == old(s).main_button_id,
            opt_str(final(s).value) == opt_str(old(s).options@[idx as int].value),
            option_entries(final(s).opt_map) == Seq::<(usize, usize)>::empty(),
            forall|c: Id| old(self).children_of(sid).contains(c) && c != main ==> #[trigger] final(self).removal_queue().contains(c),
            final(self).removal_queue() == old(self).removal_queue() + old(self).children_of(sid).filter(|c: Id| c != main),
            final(self).children_of(sid) == old(self).children_of(sid),
            final(self).pending_since(old(self).pending().len()).contains(select_changed(sid))
                <==> opt_str(final(s).value) != opt_str(old(s).value),
            other_events_of(final(self).pending_since(old(self).pending().len()), sid) == (if opt_str(final(s).value) != opt_str(old(s).value) {
                seq![select_changed(sid)]
            } else {
                Seq::<Event>::empty()
            }),
    {
        let ghost g0 = *self;
        let ghost n0 = g0.pending().len();
        proof {
            self.lemma_grows_refl(sid);
            assert(self.pending_since(n0) =~= Seq::<Event>::empty());
        }
        match FirstChildLens.apply(self, main) {
            Some(f) => {
                let is_text = match &self.widget_ref(f).inner {
                    WidgetKind::TextField(_) => true,
                    _ => false,
                };
                if is_text {
                    let name = s.options[idx].name.clone();
                    self.set_field(f, &TextFieldTextLens, name);
                    proof {
                        assert(g0.children_ok(main));
                        assert(g0.children_of(main)[0] == f);
                        assert(g0.parent_of(f) == main);
                        assert(g0.parent_ok(f));
                        assert(g0.in_subtree(main, f)) by {
                            if main != ROOT {
                                assert(g0.path(f) == g0.path(main).push(main));
                                assert(g0.path(f)[g0.path(main).len() as int] == main);
                            }
                        }
                        Gui::lemma_subtree_trans(g0, sid, main, f);
                        assert(f != sid) by {
                            if f == sid {
                                Gui::lemma_subtree_antisym(g0, sid, main);
                            }
                        }
                        self.lemma_field_put_grows(&g0, f, TextFieldTextLens, name@);
                        lemma_field_put_not_about(*self, g0, f, TextFieldTextLens, name@, sid);
                        self.lemma_grows_widen(&g0, f, sid);
                        assert(self.widget(main) == g0.widget(main));
                        self.lemma_grows_keeps_subtree(&g0, sid, main);
                        assert(self.pending_since(n0).contains(select_changed(sid)) ==> false) by {
                            if self.pending_since(n0).contains(select_changed(sid)) {
                                let j = choose|j: int| 0 <= j < self.pending_since(n0).len() && self.pending_since(n0)[j] == select_changed(sid);
                                assert(self.pending()[n0 + j] == select_changed(sid));
                            }
                        }
                    }
                }
            },
            None => {},
        }
        let ghost g1 = *self;
        proof {
            if g1.pending().len() == n0 {
                assert(g1.pending_since(n0) =~= Seq::<Event>::empty());
                lemma_no_other_about(g1.pending_since(n0), sid);
            }
            assert(other_events_of(g1.pending_since(n0), sid) == Seq::<Event>::empty());
        }
        self.set_field(main, &ToggleButtonStateLens, false);
        proof {
            self.lemma_field_put_grows(&g1, main, ToggleButtonStateLens, false);
            lemma_field_put_not_about(*self, g1, main, ToggleButtonStateLens, false, sid);
            lemma_other_split(*self, g1, g0, sid);
            assert(other_events_of(self.pending_since(n0), sid) =~= Seq::<Event>::empty());
            self.lemma_grows_widen(&g1, main, sid);
            self.lemma_grows_trans(&g1, &g0, sid);
            self.lemma_grows_keeps_subtree(&g0, sid, main);
            assert(!self.pending_since(n0).contains(select_changed(sid))) by {
                if self.pending_since(n0).contains(select_changed(sid)) {
                    let j = choose|j: int| 0 <= j < self.pending_since(n0).len() && self.pending_since(n0)[j] == select_changed(sid);
                    assert(self.pending()[n0 + j] == select_changed(sid));
                    if n0 + j < g1.pending().len() {
                        assert(g1.pending_since(n0)[j] == select_changed(sid));
                    }
                }
            }
        }
        let val = clone_opt_string(&s.options[idx].value);
        if !crate::lens::opt_string_eq(&val, &s.value) {
            let ghost g2 = *self;
            self.push_event(Event::new(sid, EventKind::Change { field: FieldId(Field::SelectValue) }));
            proof {
                assert(self.pending().take(g2.pending().len() as int) =~= g2.pending());
                lemma_other_split(*self, g2, g0, sid);
                assert(self.pending_since(g2.pending().len()) =~= seq![select_changed(sid)]);
                reveal_with_fuel(Seq::filter, 2);
                assert(seq![select_changed(sid)].drop_last() =~= Seq::<Event>::empty());
                assert(other_events_of(seq![select_changed(sid)], sid) =~= seq![select_changed(sid)]);
                assert(other_events_of(self.pending_since(n0), sid) =~= seq![select_changed(sid)]);
                self.lemma_push_grows(&g2, sid, select_changed(sid));
                self.lemma_grows_trans(&g2, &g0, sid);
                assert(self.pending_since(n0) =~= g2.pending_since(n0).push(select_changed(sid)));
                assert(self.pending_since(n0)[self.pending_since(n0).len() - 1] == select_changed(sid));
                self.lemma_grows_keeps_subtree(&g0, sid, main);
            }
        }
        s.value = val;
        let ghost g3 = *self;
        proof {
            assert(g3.children_of(sid) == g0.children_of(sid)) by {
                assert(g3.widget(sid) == g0.widget(sid));
            }
        }
        self.list_close(sid, main, &mut s.opt_map);
        proof {
            self.lemma_grows_trans(&g3, &g0, sid);
            self.lemma_grows_keeps_subtree(&g0, sid, main);
        }
    }

    /// Switches each option button of the open list of the select `sid` (data held in `s`) on
    /// exactly where its option holds the select's value. Entries of the option map that are no
    /// toggle button below the select are passed over.
    fn select_show_value(&mut self, sid: Id, s: &Select)
        requires
            old(self).wf(),
            old(self).live(sid),
            sid != ROOT,
        ensures
            final(self).grows_within(old(self), sid),
            final(self).keeps_pointer_state(old(self)),
            final(self).no_pointer_events_since(old(self).pending().len()),
            !final(self).pending_since(old(self).pending().len()).contains(select_changed(sid)),
            forall|e: Event| #[trigger] final(self).pending_since(old(self).pending().len()).contains(e) ==> e.id != sid,
            forall|y: Id| old(self).live(y) && not_a_key(option_entries(s.opt_map), y) ==> #[trigger] final(self).widget(y) == old(self).widget(y),
            option_states_shown(*final(self), sid, option_entries(s.opt_map), s.options@, opt_str(s.value)),
            final(self).removal_queue() == old(self).removal_queue(),
            final(self).children_of(sid) == old(self).children_of(sid),
    {
        let ghost g0 = *self;
        let ghost n0 = g0.pending().len();
        proof {
            self.lemma_grows_refl(sid);
            assert(self.pending_since(n0) =~= Seq::<Event>::empty());
        }
        let n = crate::collections::options_len(&s.opt_map);
        let mut j: usize = 0;
        while j < n
            invariant
                g0.wf(),
                g0.live(sid),
                sid != ROOT,
                n == option_entries(s.opt_map).len(),
                n0 == g0.pending().len(),
                self.grows_within(&g0, sid),
                self.keeps_pointer_state(&g0),
                self.no_pointer_events_since(g0.pending().len()),
                forall|e: Event| #[trigger] self.pending_since(n0).contains(e) ==> e.id != sid,
                forall|y: Id| g0.live(y) && not_a_key(option_entries(s.opt_map), y) ==> #[trigger] self.widget(y) == g0.widget(y),
                j <= n,
                forall|y: Id| #[trigger] self.live(y) ==> (self.kind(y) is ToggleButton <==> g0.kind(y) is ToggleButton),
                option_states_upto(*self, sid, option_entries(s.opt_map), j as int, s.options@, opt_str(s.value)),
                self.removal_queue() == g0.removal_queue(),
                self.children_of(sid) == g0.children_of(sid),
            decreases n - j,
        {
            let (id, idx) = crate::collections::options_get_index(&s.opt_map, j);
            if idx < s.options.len() && id != sid && self.contains(id) && self.is_in_subtree(sid, id) {
                let is_toggle = match &self.widget_ref(id).inner {
                    WidgetKind::ToggleButton(_) => true,
                    _ => false,
                };
                if is_toggle {
                    let on = crate::lens::opt_string_eq(&s.options[idx].value, &s.value);
                    let ghost gi = *self;
                    self.set_field(id, &ToggleButtonStateLens, on);
                    proof {
                        assert(gi.live(sid));
                        let opt = option_entries(s.opt_map);
                        assert forall|y: Id| #[trigger] self.live(y) implies (self.kind(y) is ToggleButton <==> g0.kind(y) is ToggleButton) by {
                            assert(gi.live(y));
                        }
                        assert forall|jj: int| 0 <= jj < j + 1 && jj < opt.len() && (#[trigger] opt[jj]).1 < s.options@.len() && opt[jj].0 != sid && self.live(opt[jj].0)
                            && self.in_subtree(sid, opt[jj].0) && self.kind(opt[jj].0) is ToggleButton
                            && (forall|j2: int| jj < j2 < j + 1 && j2 < opt.len() ==> opt[j2].0 != opt[jj].0)
                            implies self.toggle_state(opt[jj].0) == (opt_str(s.options@[opt[jj].1 as int].value) == opt_str(s.value)) by {
                            if jj < j {
                                assert(opt[j as int].0 != opt[jj].0);
                                let b = opt[jj].0;
                                assert(gi.live(b));
                                if b != ROOT {
                                    assert(gi.has_path(b));
                                    assert(self.path(b) == gi.path(b));
                                }
                                assert(self.widget(b) == gi.widget(b));
                            }
                        }
                        self.lemma_field_put_grows(&gi, id, ToggleButtonStateLens, on);
                        self.lemma_grows_widen(&gi, id, sid);
                        self.lemma_grows_trans(&gi, &g0, sid);
                        lemma_since_split(*self, gi, g0);
                        assert forall|e: Event| #[trigger] self.pending_since(n0).contains(e) implies e.id != sid by {
                            lemma_contains_concat(gi.pending_since(n0), self.pending_since(gi.pending().len()), e);
                            if self.pending_since(gi.pending().len()).contains(e) {
                                let k = choose|k: int| 0 <= k < self.pending_since(gi.pending().len()).len() && self.pending_since(gi.pending().len())[k] == e;
                                assert(self.pending()[gi.pending().len() + k] == e);
                            }
                        }
                    }
                }
            }
            j += 1;
        }
    }
}


/// The value of a dropdown button with options `options` and value `value` once the option
/// `chosen` (if any) was chosen.
pub open spec fn dropdown_chosen_value(options: Seq<DropdownOption>, value: Option<Seq<char>>, chosen: Option<usize>) -> Option<Seq<char>> {
    match chosen {
        Some(x) => Some(options[x as int].value@),
        None => value,
    }
}

impl Gui {
    /// Opens the list of the dropdown button `sid`, whose data `d` is held outside the tree: one
    /// button per option below `sid`, showing the option's name, entered in the option map with
    /// the index of its option. Stops early where the ids run out.
    fn dropdown_open(&mut self, sid: Id, d: &mut DropdownButton)
        requires
            old(self).wf(),
            old(self).live(sid),
            sid != ROOT,
        ensures
            final(self).grows_within(old(self), sid),
            final(self).keeps_pointer_state(old(self)),
            final(self).no_pointer_events_since(old(self).pending().len()),
            final(d).options == old(d).options,
            final(d).value == old(d).value,
            final(d).main_button_id == old(d).main_button_id,
            forall|k: Id| k <= old(self).last_id() ==> #[trigger] opt_lookup(option_entries(final(d).opt_map), k) == opt_lookup(option_entries(old(d).opt_map), k),
            forall|y: Id| old(self).live(y) && y != sid ==> #[trigger] final(self).widget(y) == old(self).widget(y),
            forall|x: Id| old(self).children_of(sid).contains(x) ==> #[trigger] final(self).children_of(sid).contains(x),
            room_for_list(*old(self), old(d).options@.len()) ==> forall|k: int| 0 <= k < old(d).options@.len()
                ==> has_option_button(*final(self), *old(self), sid, option_entries(final(d).opt_map), k),
            room_for_list(*old(self), old(d).options@.len()) ==> dropdown_list_shown(*final(self), *old(self), sid, option_entries(final(d).opt_map), old(d).options@),
            forall|k: int| old(self).pending().len() <= k < final(self).pending().len() ==> (#[trigger] final(self).pending()[k]).id > old(self).last_id(),
            final(self).removal_queue() == old(self).removal_queue(),
    {
        let ghost g0 = *self;
        let ghost d0 = *d;
        proof {
            self.lemma_grows_refl(sid);
        }
        let mut i: usize = 0;
        while i < d.options.len()
            invariant
                g0 == *old(self),
                d0 == *old(d),
                g0.wf(),
                g0.live(sid),
                sid != ROOT,
                self.grows_within(&g0, sid),
                self.keeps_pointer_state(&g0),
                self.no_pointer_events_since(g0.pending().len()),
                d.options == d0.options,
                d.value == d0.value,
                d.main_button_id == d0.main_button_id,
                forall|k: Id| k <= g0.last_id() ==> #[trigger] opt_lookup(option_entries(d.opt_map), k) == opt_lookup(option_entries(d0.opt_map), k),
                forall|y: Id| g0.live(y) && y != sid ==> #[trigger] self.widget(y) == g0.widget(y),
                i <= d.options@.len(),
                forall|x: Id| g0.children_of(sid).contains(x) ==> #[trigger] self.children_of(sid).contains(x),
                room_for_list(g0, d0.options@.len()) ==> self.last_id() == g0.last_id() + 2 * i,
                room_for_list(g0, d0.options@.len()) ==> forall|k: int| 0 <= k < i
                    ==> has_option_button(*self, g0, sid, option_entries(d.opt_map), k),
                room_for_list(g0, d0.options@.len()) ==> self.children_of(sid).len() == g0.children_of(sid).len() + i,
                room_for_list(g0, d0.options@.len()) ==> self.children_of(sid).take(g0.children_of(sid).len() as int) == g0.children_of(sid),
                room_for_list(g0, d0.options@.len()) ==> forall|k: int| 0 <= k < i ==> !g0.live(#[trigger] self.children_of(sid)[g0.children_of(sid).len() + k])
                    && shows_dropdown_option(*self, self.children_of(sid)[g0.children_of(sid).len() + k], d0.options@[k], option_entries(d.opt_map), k),
                forall|k: int| g0.pending().len() <= k < self.pending().len() ==> (#[trigger] self.pending()[k]).id > g0.last_id(),
                self.removal_queue() == g0.removal_queue(),
            decreases d.options@.len() - i,
        {
            let ghost gi = *self;
            let ghost mi = option_entries(d.opt_map);
            let b = match self.insert_widget(sid, WidgetKind::Button(Button::new())) {
                Some(b) => b,
                None => {
                    proof {
                        assert(!room_for_list(g0, d0.options@.len()));
                    }
                    return;
                },
            };
            let ghost gb = *self;
            proof {
                assert(gi.live(sid));
                assert forall|y: Id| g0.live(y) && y != sid implies #[trigger] self.widget(y) == g0.widget(y) by {
                    assert(y <= g0.last_id());
                    assert(gi.widget(y) == g0.widget(y));
                }
                self.lemma_inserted_grows(&gi, sid, b, WidgetKind::Button(Button {}), sid);
                assert forall|x: Id| g0.children_of(sid).contains(x) implies #[trigger] self.children_of(sid).contains(x) by {
                    assert(gi.children_of(sid).contains(x));
                    let j = choose|j: int| 0 <= j < gi.children_of(sid).len() && gi.children_of(sid)[j] == x;
                    assert(self.children_of(sid)[j] == x);
                }
                assert(self.in_subtree(b, (b + 1) as Id));
                Gui::lemma_subtree_trans(*self, sid, b, (b + 1) as Id);
            }
            proof {
                assert forall|k: int| g0.pending().len() <= k < gb.pending().len() implies (#[trigger] gb.pending()[k]).id > g0.last_id() by {
                    if k < gi.pending().len() {
                        assert(gb.pending()[k] == gi.pending()[k]);
                    } else {
                        assert(gb.pending()[k] == Gui::new_events(b, WidgetKind::Button(Button {}))[k - gi.pending().len()]);
                    }
                }
            }
            let name = d.options[i].name.clone();
            self.set_field(b + 1, &TextFieldTextLens, name);
            proof {
                assert forall|k: int| g0.pending().len() <= k < self.pending().len() implies (#[trigger] self.pending()[k]).id > g0.last_id() by {
                    if k < gb.pending().len() {
                        assert(self.pending()[k] == gb.pending()[k]);
                    }
                }
                self.lemma_field_put_grows(&gb, (b + 1) as Id, TextFieldTextLens, name@);
                self.lemma_grows_widen(&gb, (b + 1) as Id, sid);
                self.lemma_grows_trans(&gb, &gi, sid);
            }
            let ghost m0 = option_entries(d.opt_map);
            options_insert(&mut d.opt_map, b, i);
            proof {
                assert forall|y: Id| gi.live(y) && y != sid implies #[trigger] self.widget(y) == gi.widget(y) by {
                    assert(y <= gi.last_id());
                    assert(gb.widget(y) == gi.widget(y));
                }
                assert(self.in_subtree(sid, b));
                assert(self.kind(b) is Button);
                assert(gi.last_id() >= g0.last_id());
                if room_for_list(g0, d0.options@.len()) {
                    Gui::lemma_option_buttons_grow(*self, gi, g0, sid, sid, b, mi, option_entries(d.opt_map), i as int);
                    lemma_lookup_insert_same(mi, b, i);
                    assert(shows_dropdown_option(*self, b, d0.options@[i as int], option_entries(d.opt_map), i as int));
                    assert forall|x: Id| x != b implies #[trigger] opt_lookup(option_entries(d.opt_map), x) == opt_lookup(mi, x) by {
                        lemma_lookup_insert_other(mi, b, i, x);
                    }
                    Gui::lemma_dropdown_step(*self, gi, g0, sid, b, mi, option_entries(d.opt_map), d0.options@, i as int);
                }
                self.lemma_grows_trans(&gi, &g0, sid);
                assert forall|k: Id| k <= g0.last_id() implies #[trigger] opt_lookup(option_entries(d.opt_map), k) == opt_lookup(option_entries(d0.opt_map), k) by {
                    lemma_lookup_insert_other(m0, b, i, k);
                }
            }
            i += 1;
        }
    }

    /// Chooses the option `idx` of the dropdown button `sid`, whose data `d` is held outside the
    /// tree: shows the option's name on the main button `main` (where its first child is a
    /// text field), switches the main button off, takes the option's value, and closes the
    /// list.
    fn dropdown_choose(&mut self, sid: Id, main: Id, d: &mut DropdownButton, idx: usize)
        requires
            old(self).wf(),
            old(self).live(sid),
            sid != ROOT,
            old(self).live(main),
            old(self).kind(main) is ToggleButton,
            old(self).in_subtree(sid, main),
            main != sid,
            idx < old(d).options@.len(),
        ensures
            final(self).grows_within(old(self), sid),
            final(self).keeps_pointer_state(old(self)),
            final(self).no_pointer_events_since(old(self).pending().len()),
            final(self).live(main),
            final(self).kind(main) is ToggleButton,
            !final(self).toggle_state(main),
            text_child(*final(self), main) ==> shows_text(*final(self), main, old(d).options@[idx as int].name@),
            final(self).in_subtree(sid, main),
            final(d).options == old(d).options,
            final(d).main_button_id == old(d).main_button_id,
            opt_str(final(d).value) == Some(old(d).options@[idx as int].value@),
            option_entries(final(d).opt_map) == Seq::<(usize, usize)>::empty(),
            forall|c: Id| old(self).children_of(sid).contains(c) && c != main ==> #[trigger] final(self).removal_queue().contains(c),
            final(self).removal_queue() == old(self).removal_queue() + old(self).children_of(sid).filter(|c: Id| c != main),
            final(self).children_of(sid) == old(self).children_of(sid),
            forall|k: int| old(self).pending().len() <= k < final(self).pending().len() ==> (#[trigger] final(self).pending()[k]).id != sid,
    {
        let ghost g0 = *self;
        proof {
            self.lemma_grows_refl(sid);
        }
        match FirstChildLens.apply(self, main) {
            Some(f) => {
                let is_text = match &self.widget_ref(f).inner {
                    WidgetKind::TextField(_) => true,
                    _ => false,
                };
                if is_text {
                    let name = d.options[idx].name.clone();
                    self.set_field(f, &TextFieldTextLens, name);
                    proof {
                        assert(g0.children_ok(main));
                        assert(g0.children_of(main)[0] == f);
                        assert(g0.parent_of(f) == main);
                        assert(g0.parent_ok(f));
                        assert(g0.in_subtree(main, f)) by {
                            if main != ROOT {
                                assert(g0.path(f) == g0.path(main).push(main));
                                assert(g0.path(f)[g0.path(main).len() as int] == main);
                            }
                        }
                        Gui::lemma_subtree_trans(g0, sid, main, f);
                        assert(f != sid) by {
                            if f == sid {
                                Gui::lemma_subtree_antisym(g0, sid, main);
                            }
                        }
                        self.lemma_field_put_grows(&g0, f, TextFieldTextLens, name@);
                        self.lemma_grows_widen(&g0, f, sid);
                        assert(self.widget(main) == g0.widget(main));
                        self.lemma_grows_keeps_subtree(&g0, sid, main);
                    }
                }
            },
            None => {},
        }
        let ghost g1 = *self;
        self.set_field(main, &ToggleButtonStateLens, false);
        proof {
            self.lemma_field_put_grows(&g1, main, ToggleButtonStateLens, false);
            self.lemma_grows_widen(&g1, main, sid);
            self.lemma_grows_trans(&g1, &g0, sid);
            self.lemma_grows_keeps_subtree(&g0, sid, main);
        }
        let v = d.options[idx].value.clone();
        d.value = Some(v);
        let ghost g3 = *self;
        proof {
            assert(g3.children_of(sid) == g0.children_of(sid)) by {
                assert(g3.widget(sid) == g0.widget(sid));
            }
        }
        self.list_close(sid, main, &mut d.opt_map);
        proof {
            self.lemma_grows_trans(&g3, &g0, sid);
            self.lemma_grows_keeps_subtree(&g0, sid, main);
        }
    }

    /// The work of the dropdown button `sid` in an update, where `local` are the events of its
    /// part of the tree in this update. A change of its main button's state opens the list
    /// (where the main button is on) or closes it (where it is off); a press on an option button
    /// makes that option's value the dropdown's value, switches the main button off, shows the
    /// option's name on it, and closes the list. Where the list opens and no option is chosen,
    /// the option map names a new button below the dropdown for each option (while ids are left),
    /// and where the main button changed once, the buttons follow the dropdown's children in
    /// the order of the options, as `dropdown_open` shows them; where it closes, every child of
    /// the dropdown but the main button is marked for removal. No event about the dropdown
    /// itself is collected. Nothing happens where the main button is not a toggle button among
    /// the dropdown's children.
    pub(crate) fn dropdown_update(&mut self, sid: Id, local: &Vec<Event>)
        requires
            old(self).wf(),
            old(self).live(sid),
            sid != ROOT,
            old(self).kind(sid) is DropdownButton,
            forall|k: int| 0 <= k < local@.len() ==> #[trigger] local@[k].id <= old(self).last_id(),
        ensures
            final(self).grows_within(old(self), sid),
            final(self).keeps_pointer_state(old(self)),
            final(self).no_pointer_events_since(old(self).pending().len()),
            ({
                let d0 = old(self).kind(sid)->DropdownButton_0;
                let main = d0.main_button_id;
                let chosen = chosen_option(local@, 0, main, !old(self).toggle_state(main), option_entries(d0.opt_map), d0.options@.len());
                &&& final(self).kind(sid) is DropdownButton
                &&& final(self).kind(sid)->DropdownButton_0.options == d0.options
                &&& final(self).kind(sid)->DropdownButton_0.main_button_id == main
                &&& final(self).kind(sid)->DropdownButton_0.spec_value() == (if old(self).main_ok(sid, main) {
                    dropdown_chosen_value(d0.options@, d0.spec_value(), chosen)
                } else {
                    d0.spec_value()
                })
                &&& (old(self).main_ok(sid, main) && old(self).toggle_state(main) && local@.contains(toggled(main)) && chosen is None
                    && room_for_list(*old(self), d0.options@.len()) ==> forall|k: int| 0 <= k < d0.options@.len()
                    ==> #[trigger] has_option_button(*final(self), *old(self), sid, option_entries(final(self).kind(sid)->DropdownButton_0.opt_map), k))
                &&& (old(self).main_ok(sid, main) && ((!old(self).toggle_state(main) && local@.contains(toggled(main))) || chosen is Some)
                    ==> forall|c: Id| old(self).children_of(sid).contains(c) && c != main ==> #[trigger] final(self).removal_queue().contains(c))
                &&& (old(self).main_ok(sid, main) && chosen is Some ==> !final(self).toggle_state(main)
                    && (text_child(*final(self), main) ==> shows_text(*final(self), main, d0.options@[chosen.unwrap() as int].name@)))
                &&& (old(self).main_ok(sid, main) && ((!old(self).toggle_state(main) && local@.contains(toggled(main))) || chosen is Some)
                    ==> option_entries(final(self).kind(sid)->DropdownButton_0.opt_map) == Seq::<(usize, usize)>::empty())
                &&& marks_only_list(*final(self), old(self).removal_queue().len(), sid, main)
            }),
            other_events_of(final(self).pending_since(old(self).pending().len()), sid) == Seq::<Event>::empty(),
            ({
                let d0 = old(self).kind(sid)->DropdownButton_0;
                let main = d0.main_button_id;
                old(self).main_ok(sid, main) && old(self).toggle_state(main) && local@.contains(toggled(main)) && at_most_once(local@, toggled(main))
                    && chosen_option(local@, 0, main, false, option_entries(d0.opt_map), d0.options@.len()) is None
                    && room_for_list(*old(self), d0.options@.len())
                    ==> dropdown_list_shown(*final(self), *old(self), sid, option_entries(final(self).kind(sid)->DropdownButton_0.opt_map), d0.options@)
            }),
    {
        let ghost g0 = *self;
        let k = self.swap_inner(sid, WidgetKind::Container(Container::new()));
        let mut d = match k {
            WidgetKind::DropdownButton(d) => d,
            _ => {
                proof {
                    assert(false);
                }
                return;
            },
        };
        let ghost d0 = d;
        let ghost g1 = *self;
        proof {
            self.lemma_grows_refl(sid);
        }
        let main = d.main_button_id;
        let main_child = main != sid && (ChildLens { id: main }).apply(self, sid).is_some() && match &self.widget_ref(main).inner {
            WidgetKind::ToggleButton(_) => true,
            _ => false,
        };
        if !main_child {
            self.swap_inner(sid, WidgetKind::DropdownButton(d));
            proof {
                assert(!g0.main_ok(sid, main)) by {
                    if g0.main_ok(sid, main) {
                        assert(g1.children_of(sid) == g0.children_of(sid));
                        g0.lemma_children_live(sid);
                        let j = choose|j: int| 0 <= j < g0.children_of(sid).len() && g0.children_of(sid)[j] == main;
                        assert(g0.live(g0.children_of(sid)[j]));
                        assert(g1.widget(main) == g0.widget(main));
                    }
                }
                self.lemma_placeholder_grows(&g1, &g1, &g0, sid);
            }
            return;
        }
        proof {
            g0.lemma_children_live(sid);
            assert(g1.children_of(sid) == g0.children_of(sid));
            assert(g0.live(main)) by {
                let j = choose|j: int| 0 <= j < g0.children_of(sid).len() && g0.children_of(sid)[j] == main;
                assert(g0.live(g0.children_of(sid)[j]));
            }
            assert(g1.widget(main) == g0.widget(main));
            assert(g0.main_ok(sid, main));
            assert(g0.children_ok(sid));
            assert(g0.parent_of(main) == sid) by {
                let j = choose|j: int| 0 <= j < g0.children_of(sid).len() && g0.children_of(sid)[j] == main;
                assert(g0.children_of(sid)[j] == main);
            }
            assert(g0.parent_ok(main));
            assert(g0.in_subtree(sid, main)) by {
                assert(g0.path(main) == g0.path(sid).push(sid));
                assert(g0.path(main)[g0.path(sid).len() as int] == sid);
            }
            assert(g1.has_path(main));
            assert(g1.in_subtree(sid, main));
        }
        let ghost closing = !g0.toggle_state(main);
        let ghost opt0 = option_entries(d0.opt_map);
        let ghost nopt = d0.options@.len();
        let ghost mut decided = false;
        let ghost mut picked: Option<usize> = None;
        let mut i: usize = 0;
        while i < local.len()
            invariant
                g0 == *old(self),
                g0.wf(),
                g0.live(sid),
                sid != ROOT,
                g1.wf(),
                g1.live(sid),
                g1.last_id() == g0.last_id(),
                forall|y: Id| #[trigger] g0.live(y) ==> g1.live(y),
                self.grows_within(&g1, sid),
                self.keeps_pointer_state(&g1),
                self.no_pointer_events_since(g1.pending().len()),
                self.live(main),
                self.kind(main) is ToggleButton,
                self.in_subtree(sid, main),
                main != sid,
                i <= local@.len(),
                d.options == d0.options,
                d.main_button_id == main,
                opt0 == option_entries(d0.opt_map),
                nopt == d0.options@.len(),
                closing == !g0.toggle_state(main),
                forall|k: int| 0 <= k < local@.len() ==> #[trigger] local@[k].id <= g0.last_id(),
                !decided ==> {
                    &&& opt_str(d.value) == opt_str(d0.value)
                    &&& self.toggle_state(main) == g0.toggle_state(main)
                    &&& forall|k: Id| k <= g0.last_id() ==> #[trigger] opt_lookup(option_entries(d.opt_map), k) == opt_lookup(opt0, k)
                    &&& chosen_option(local@, 0, main, closing, opt0, nopt) == chosen_option(local@, i as int, main, closing, opt0, nopt)
                },
                decided ==> {
                    &&& opt_str(d.value) == dropdown_chosen_value(d0.options@, opt_str(d0.value), chosen_option(local@, 0, main, closing, opt0, nopt))
                    &&& forall|k: Id| k <= g0.last_id() ==> #[trigger] opt_lookup(option_entries(d.opt_map), k) is None
                },
                !closing && decided ==> chosen_option(local@, 0, main, closing, opt0, nopt) is Some,
                !decided && !(!closing && local@.take(i as int).contains(toggled(main))) ==> self.last_id() == g0.last_id(),
                !closing && !decided && local@.take(i as int).contains(toggled(main)) && room_for_list(g0, nopt)
                    ==> forall|k: int| 0 <= k < nopt ==> #[trigger] has_option_button(*self, g0, sid, option_entries(d.opt_map), k),
                forall|x: Id| g0.children_of(sid).contains(x) ==> #[trigger] self.children_of(sid).contains(x),
                closing && local@.take(i as int).contains(toggled(main)) ==> decided,
                decided ==> forall|c: Id| g0.children_of(sid).contains(c) && c != main ==> #[trigger] self.removal_queue().contains(c),
                picked is Some ==> decided,
                decided && picked is None ==> chosen_option(local@, 0, main, closing, opt0, nopt) is None,
                picked matches Some(k) ==> chosen_option(local@, 0, main, closing, opt0, nopt) == Some(k) && k < nopt
                    && (text_child(*self, main) ==> shows_text(*self, main, d0.options@[k as int].name@)),
                decided ==> !self.toggle_state(main) && option_entries(d.opt_map) == Seq::<(usize, usize)>::empty(),
                forall|k: int| g0.pending().len() <= k < self.pending().len() ==> (#[trigger] self.pending()[k]).id != sid,
                !decided && !local@.take(i as int).contains(toggled(main)) ==> *self == g1 && d == d0,
                !closing && !decided && local@.take(i as int).contains(toggled(main)) && at_most_once(local@, toggled(main))
                    && room_for_list(g0, nopt) ==> dropdown_list_shown(*self, g1, sid, option_entries(d.opt_map), d0.options@),
                g1.removal_queue() == g0.removal_queue(),
                marks_only_list(*self, g0.removal_queue().len(), sid, main),
            decreases local@.len() - i,
        {
            let e = local[i];
            let ghost gi = *self;
            let ghost mi = option_entries(d.opt_map);
            let ghost opened = !closing && local@.take(i as int).contains(toggled(main));
            proof {
                assert(e.id <= g0.last_id());
                lemma_take_contains(local@, i as int, toggled(main));
                if opened && at_most_once(local@, toggled(main)) {
                    let a = choose|a: int| 0 <= a < local@.take(i as int).len() && local@.take(i as int)[a] == toggled(main);
                    assert(local@[a] == toggled(main));
                    assert(local@[i as int] != toggled(main));
                }
            }
            if e.id == main && e.kind == (EventKind::Change { field: FieldId(Field::ToggleButtonState) }) {
                let main_on = match &self.widget_ref(main).inner {
                    WidgetKind::ToggleButton(t) => t.state,
                    _ => false,
                };
                if main_on {
                    self.dropdown_open(sid, &mut d);
                    proof {
                        Gui::lemma_marks_step(*self, gi, g0.removal_queue().len(), sid, main);
                        if !closing && !decided && at_most_once(local@, toggled(main)) && room_for_list(g0, nopt) {
                            assert(!opened);
                            assert(gi == g1);
                            assert(room_for_list(gi, nopt));
                        }
                        assert(sid <= gi.last_id());
                        assert forall|k: int| g0.pending().len() <= k < self.pending().len() implies (#[trigger] self.pending()[k]).id != sid by {
                            if k < gi.pending().len() {
                                assert(self.pending().take(gi.pending().len() as int)[k] == self.pending()[k]);
                                assert(self.pending()[k] == gi.pending()[k]);
                            }
                        }
                        if !closing && !decided && room_for_list(g0, nopt) {
                            if opened {
                                Gui::lemma_option_buttons_kept(*self, gi, g0, sid, option_entries(d.opt_map), mi, nopt);
                            } else {
                                assert(room_for_list(gi, nopt));
                                assert forall|y: Id| #[trigger] g0.live(y) implies gi.live(y) by {
                                    assert(g1.live(y));
                                }
                                Gui::lemma_option_buttons_fresh(*self, gi, g0, sid, option_entries(d.opt_map), nopt);
                            }
                        }
                    }
                } else {
                    self.list_close(sid, main, &mut d.opt_map);
                    proof {
                        assert forall|x: Id| gi.children_of(sid).contains(x) implies #[trigger] self.children_of(sid).contains(x) by {
                            assert(self.widget(sid) == gi.widget(sid));
                        }
                        Gui::lemma_marks_step(*self, gi, g0.removal_queue().len(), sid, main);
                        decided = true;
                    }
                }
                proof {
                    self.lemma_grows_trans(&gi, &g1, sid);
                    self.lemma_no_pointer_trans(&gi, g1.pending().len());
                    self.lemma_grows_keeps_subtree(&gi, sid, main);
                    assert(self.widget(main) == gi.widget(main));
                    if gi.children_of(main).len() > 0 {
                        gi.lemma_children_live(main);
                        let f = gi.children_of(main)[0];
                        assert(gi.live(f));
                        assert(f != sid) by {
                            if f == sid {
                                assert(gi.children_of(main).contains(sid));
                                Gui::lemma_child(gi, main, sid);
                                Gui::lemma_subtree_antisym(gi, sid, main);
                            }
                        }
                        assert(self.widget(f) == gi.widget(f));
                    }
                    assert forall|x: Id| g0.children_of(sid).contains(x) implies #[trigger] self.children_of(sid).contains(x) by {
                        assert(gi.children_of(sid).contains(x));
                    }
                    if decided {
                        assert forall|c: Id| g0.children_of(sid).contains(c) && c != main implies #[trigger] self.removal_queue().contains(c) by {
                            assert(gi.children_of(sid).contains(c));
                            if gi.removal_queue().contains(c) {
                                self.lemma_queue_keeps(&gi, c);
                            }
                        }
                    }
                }
            }
            let ghost gj = *self;
            match crate::collections::options_get(&d.opt_map, e.id) {
                Some(idx) => {
                    if e.kind == EventKind::Press && idx < d.options.len() {
                        proof {
                            assert(!decided);
                            assert(local@[i as int] != toggled(main));
                            assert(chosen_option(local@, i as int, main, closing, opt0, nopt) == Some(idx));
                        }
                        self.dropdown_choose(sid, main, &mut d, idx);
                        proof {
                            Gui::lemma_marks_step(*self, gj, g0.removal_queue().len(), sid, main);
                            assert forall|k: int| g0.pending().len() <= k < self.pending().len() implies (#[trigger] self.pending()[k]).id != sid by {
                                if k < gj.pending().len() {
                                    assert(self.pending().take(gj.pending().len() as int)[k] == self.pending()[k]);
                                    assert(self.pending()[k] == gj.pending()[k]);
                                }
                            }
                            decided = true;
                            picked = Some(idx);
                            assert forall|x: Id| g0.children_of(sid).contains(x) implies #[trigger] self.children_of(sid).contains(x) by {
                                assert(gj.children_of(sid).contains(x));
                            }
                            assert forall|c: Id| g0.children_of(sid).contains(c) && c != main implies #[trigger] self.removal_queue().contains(c) by {
                                assert(gj.children_of(sid).contains(c));
                            }
                            self.lemma_grows_trans(&gj, &g1, sid);
                            self.lemma_no_pointer_trans(&gj, g1.pending().len());
                        }
                    }
                },
                None => {},
            }
            i += 1;
        }
        let ghost g2 = *self;
        self.swap_inner(sid, WidgetKind::DropdownButton(d));
        proof {
            if !closing && !decided && local@.contains(toggled(main)) && at_most_once(local@, toggled(main)) && room_for_list(g0, nopt) {
                assert(local@.take(local@.len() as int) =~= local@);
                assert forall|y: Id| #[trigger] g0.live(y) implies g1.live(y) by {}
                Gui::lemma_dropdown_list_kept(*self, g2, g1, g0, sid, option_entries(d.opt_map), d0.options@);
            }
            let added = self.pending_since(g0.pending().len());
            assert forall|ev: Event| #[trigger] added.contains(ev) implies ev.id != sid by {
                let j = choose|j: int| 0 <= j < added.len() && added[j] == ev;
                assert(added[j] == self.pending()[g0.pending().len() + j]);
            }
            lemma_no_other_about(added, sid);
            self.lemma_placeholder_grows(&g2, &g1, &g0, sid);
            assert(local@.take(local@.len() as int) =~= local@);
            if !closing && !decided && local@.contains(toggled(main)) && room_for_list(g0, nopt) {
                Gui::lemma_option_buttons_kept(*self, g2, g0, sid, option_entries(d.opt_map), option_entries(d.opt_map), nopt);
            }
        }
    }
}

impl Select {
    /// Opens the list of the select `sid` of `gui` (see `Gui::select_open`): where ids are left
    /// for it, a new container put after the select's children holds one toggle button per
    /// option, in order, each showing the option's name, on exactly where the option holds the
    /// select's value, and entered in the option map.
    pub fn open(gui: &mut Gui, sid: Id)
        requires
            old(gui).wf(),
            old(gui).live(sid),
            old(gui).kind(sid) is Select,
        ensures
            final(gui).grows_within(old(gui), sid),
            final(gui).kind(sid) is Select,
            final(gui).kind(sid)->Select_0.options == old(gui).kind(sid)->Select_0.options,
            final(gui).kind(sid)->Select_0.spec_value() == old(gui).kind(sid)->Select_0.spec_value(),
            final(gui).kind(sid)->Select_0.main_button_id == old(gui).kind(sid)->Select_0.main_button_id,
            room_for_list(*old(gui), old(gui).kind(sid)->Select_0.options@.len()) ==> exists|c: Id| #[trigger] select_list_shown(*final(gui), *old(gui), sid, c,
                option_entries(final(gui).kind(sid)->Select_0.opt_map), old(gui).kind(sid)->Select_0.options@, old(gui).kind(sid)->Select_0.spec_value()),
    {
        let ghost g0 = *gui;
        let k = gui.swap_inner(sid, WidgetKind::Container(Container::new()));
        let mut s = match k {
            WidgetKind::Select(s) => s,
            _ => {
                proof {
                    assert(false);
                }
                return;
            },
        };
        let ghost s0 = s;
        let ghost g1 = *gui;
        gui.select_open(sid, &mut s);
        proof {
            assert(g1.live(sid));
        }
        let ghost g2 = *gui;
        let ghost sf = s;
        gui.swap_inner(sid, WidgetKind::Select(s));
        proof {
            gui.lemma_placeholder_grows(&g2, &g1, &g0, sid);
            if room_for_list(g0, s0.options@.len()) {
                assert forall|y: Id| #[trigger] g0.live(y) implies g1.live(y) by {}
                let c = choose|c: Id| #[trigger] select_list_shown(g2, g1, sid, c, option_entries(sf.opt_map), s0.options@, opt_str(s0.value));
                Gui::lemma_select_list_kept(*gui, g2, g1, g0, sid, c, option_entries(sf.opt_map), s0.options@, opt_str(s0.value));
            }
        }
    }

    /// Closes the list of the select `sid` of `gui`: every child of the select but its main
    /// button is marked for removal, and the option map is emptied.
    pub fn close(gui: &mut Gui, sid: Id)
        requires
            old(gui).wf(),
            old(gui).live(sid),
            old(gui).kind(sid) is Select,
        ensures
            final(gui).grows_within(old(gui), sid),
            final(gui).kind(sid) is Select,
            final(gui).kind(sid)->Select_0.options == old(gui).kind(sid)->Select_0.options,
            final(gui).kind(sid)->Select_0.spec_value() == old(gui).kind(sid)->Select_0.spec_value(),
            final(gui).kind(sid)->Select_0.main_button_id == old(gui).kind(sid)->Select_0.main_button_id,
            option_entries(final(gui).kind(sid)->Select_0.opt_map) == Seq::<(usize, usize)>::empty(),
            forall|c: Id| old(gui).children_of(sid).contains(c) && c != old(gui).kind(sid)->Select_0.main_button_id
                ==> #[trigger] final(gui).removal_queue().contains(c),
            final(gui).removal_queue() == old(gui).removal_queue()
                + old(gui).children_of(sid).filter(|c: Id| c != old(gui).kind(sid)->Select_0.main_button_id),
            final(gui).pending() == old(gui).pending(),
    {
        let ghost g0 = *gui;
        let k = gui.swap_inner(sid, WidgetKind::Container(Container::new()));
        let mut s = match k {
            WidgetKind::Select(s) => s,
            _ => {
                proof {
                    assert(false);
                }
                return;
            },
        };
        let ghost g1 = *gui;
        let main = s.main_button_id;
        gui.list_close(sid, main, &mut s.opt_map);
        let ghost g2 = *gui;
        gui.swap_inner(sid, WidgetKind::Select(s));
        proof {
            gui.lemma_placeholder_grows(&g2, &g1, &g0, sid);
        }
    }
}

impl DropdownButton {
    /// Closes the list of the dropdown button `sid` of `gui`: every child of the dropdown button
    /// but its main button is marked for removal, and the option map is emptied.
    pub fn close(gui: &mut Gui, sid: Id)
        requires
            old(gui).wf(),
            old(gui).live(sid),
            old(gui).kind(sid) is DropdownButton,
        ensures
            final(gui).grows_within(old(gui), sid),
            final(gui).kind(sid) is DropdownButton,
            final(gui).kind(sid)->DropdownButton_0.options == old(gui).kind(sid)->DropdownButton_0.options,
            final(gui).kind(sid)->DropdownButton_0.spec_value() == old(gui).kind(sid)->DropdownButton_0.spec_value(),
            final(gui).kind(sid)->DropdownButton_0.main_button_id == old(gui).kind(sid)->DropdownButton_0.main_button_id,
            option_entries(final(gui).kind(sid)->DropdownButton_0.opt_map) == Seq::<(usize, usize)>::empty(),
            forall|c: Id| old(gui).children_of(sid).contains(c) && c != old(gui).kind(sid)->DropdownButton_0.main_button_id
                ==> #[trigger] final(gui).removal_queue().contains(c),
            final(gui).removal_queue() == old(gui).removal_queue()
                + old(gui).children_of(sid).filter(|c: Id| c != old(gui).kind(sid)->DropdownButton_0.main_button_id),
            final(gui).pending() == old(gui).pending(),
    {
        let ghost g0 = *gui;
        let k = gui.swap_inner(sid, WidgetKind::Container(Container::new()));
        let mut d = match k {
            WidgetKind::DropdownButton(d) => d,
            _ => {
                proof {
                    assert(false);
                }
                return;
            },
        };
        let ghost g1 = *gui;
        let main = d.main_button_id;
        gui.list_close(sid, main, &mut d.opt_map);
        let ghost g2 = *gui;
        gui.swap_inner(sid, WidgetKind::DropdownButton(d));
        proof {
            gui.lemma_placeholder_grows(&g2, &g1, &g0, sid);
        }
    }
}

} // verus!
