//! The keyboard layout of the host, and the modifier mapping on top of it.

use vstd::prelude::*;

use crate::pairs;
use crate::pairs::{pair, pair_texts};
use crate::text;

verus! {

/// The modifier mappings on offer: the configured value and its label.
pub open spec fn choice_list() -> Seq<(Seq<char>, Seq<char>)> {
    seq![
        ("system"@, "Host setting"@),
        ("none"@, "No remapping"@),
        ("altwin:ctrl_win"@, "Ctrl also acts as Win"@),
        ("altwin:alt_win"@, "Alt also acts as Win"@),
        ("altwin:ctrl_alt_win"@, "Ctrl acts as Alt, Alt as Win"@),
        ("ctrl:swap_lwin_lctl"@, "Swap Left Win and Left Ctrl"@),
        ("ctrl:swap_lalt_lctl"@, "Swap Left Alt and Left Ctrl"@),
        ("ctrl:nocaps"@, "Caps Lock as Ctrl"@),
    ]
}

/// `choice_list`, computed.
pub fn choices() -> (r: Vec<(String, String)>)
    ensures
        pair_texts(r@) == choice_list(),
{
    let mut v: Vec<(String, String)> = Vec::new();
    v.push(pair("system", "Host setting"));
    v.push(pair("none", "No remapping"));
    v.push(pair("altwin:ctrl_win", "Ctrl also acts as Win"));
    v.push(pair("altwin:alt_win", "Alt also acts as Win"));
    v.push(pair("altwin:ctrl_alt_win", "Ctrl acts as Alt, Alt as Win"));
    v.push(pair("ctrl:swap_lwin_lctl", "Swap Left Win and Left Ctrl"));
    v.push(pair("ctrl:swap_lalt_lctl", "Swap Left Alt and Left Ctrl"));
    v.push(pair("ctrl:nocaps", "Caps Lock as Ctrl"));
    assert(pair_texts(v@) =~= choice_list());
    v
}

/// Is the value one of the mappings on offer?
pub fn is_valid(choice: &str) -> (r: bool)
    ensures
        r == (pairs::lookup(choice_list(), choice@) is Some),
{
    let cs = choices();
    pairs::find(&cs, choice).is_some()
}

/// The label of a mapping; an unknown one is shown as the host's.
pub fn label(choice: &str) -> (r: String)
    ensures
        r@ == match pairs::lookup(choice_list(), choice@) {
            Some(l) => l,
            None => "Host setting"@,
        },
{
    let cs = choices();
    match pairs::find(&cs, choice) {
        Some(l) => l,
        None => "Host setting".to_owned(),
    }
}

/// The keyboard configuration of the host. An empty field means the default.
pub struct HostKeyboard {
    pub model: String,
    pub layout: String,
    pub variant: String,
    pub options: String,
}

/// The text of a value, or nothing.
pub open spec fn text_or_empty(o: Option<String>) -> Seq<char> {
    match o {
        Some(s) => s@,
        None => seq![],
    }
}

fn or_empty(o: Option<String>) -> (r: String)
    ensures
        r@ == text_or_empty(o),
{
    match o {
        Some(s) => s,
        None => String::new(),
    }
}

/// A value of the host's keyboard: its own where the desktop manages the layout, else the
/// default.
pub open spec fn host_value(use_layouts: Option<Seq<char>>, value: Option<Seq<char>>) -> Seq<char> {
    match (use_layouts, value) {
        (Some(u), Some(v)) => if u == "true"@ { v } else { seq![] },
        _ => seq![],
    }
}

/// The keyboard is the host's where its desktop manages the layout, and the default where it
/// does not.
pub proof fn law_the_keyboard_is_the_hosts(u: Seq<char>, v: Seq<char>)
    ensures
        host_value(Some("true"@), Some(v)) == v,
        host_value(Some("true"@), None).len() == 0,
        host_value(None, Some(v)).len() == 0,
        u != "true"@ ==> host_value(Some(u), Some(v)).len() == 0,
{
}

/// The keyboard configuration of the host, from the values of its settings file.
/// A desktop that does not manage the layout leaves everything to the default.
pub fn host_keyboard(
    use_layouts: Option<&str>,
    model: Option<String>,
    layout: Option<String>,
    variant: Option<String>,
    options: Option<String>,
) -> (r: HostKeyboard)
    ensures
        r.model@ == host_value(text::opt_str(use_layouts), text::opt(model)), r.layout@ == host_value(text::opt_str(use_layouts), text::opt(layout)), r.variant@ == host_value(text::opt_str(use_layouts), text::opt(variant)), r.options@ == host_value(text::opt_str(use_layouts), text::opt(options)),
        ({
            let on = use_layouts is Some && use_layouts->0@ == "true"@;
            &&& r.model@ == if on { text_or_empty(model) } else { seq![] }
            &&& r.layout@ == if on { text_or_empty(layout) } else { seq![] }
            &&& r.variant@ == if on { text_or_empty(variant) } else { seq![] }
            &&& r.options@ == if on { text_or_empty(options) } else { seq![] }
        }),
{
    let on = match use_layouts {
        Some(u) => text::same(u, "true"),
        None => false,
    };
    if on {
        HostKeyboard {
            model: or_empty(model),
            layout: or_empty(layout),
            variant: or_empty(variant),
            options: or_empty(options),
        }
    } else {
        HostKeyboard {
            model: String::new(),
            layout: String::new(),
            variant: String::new(),
            options: String::new(),
        }
    }
}

/// Is an option one that the choice of a mapping owns?
pub open spec fn is_modifier_option(o: Seq<char>) -> bool {
    let g = text::fields(o, ':')[0];
    g == "altwin"@ || g == "ctrl"@
}

/// The host's options that a mapping leaves alone.
pub open spec fn kept_options(host: Seq<char>) -> Seq<Seq<char>> {
    text::fields(host, ',').map_values(|o: Seq<char>| text::trimmed(o)).filter(
        |o: Seq<char>| o.len() > 0 && !is_modifier_option(o),
    )
}

/// The options to use: the host's, with its modifier mapping replaced.
pub open spec fn option_list(host: Seq<char>, choice: Seq<char>) -> Seq<char> {
    if choice == "system"@ {
        host
    } else if choice == "none"@ {
        text::joined(kept_options(host), ","@)
    } else {
        text::joined(kept_options(host).push(choice), ","@)
    }
}

/// `option_list`, computed.
pub fn options_for(host_options: &str, choice: &str) -> (r: String)
    ensures
        r@ == option_list(host_options@, choice@),
{
    if text::same(choice, "system") {
        return host_options.to_owned();
    }
    let parts = text::split(host_options, ',');
    let ghost t = text::fields(host_options@, ',').map_values(|o: Seq<char>| text::trimmed(o));
    let ghost p = |o: Seq<char>| o.len() > 0 && !is_modifier_option(o);
    let mut opts: Vec<String> = Vec::new();
    let mut i: usize = 0;
    reveal(Seq::filter);
    assert(text::texts(opts@) =~= t.take(0).filter(p));
    while i < parts.len()
        invariant
            i <= parts@.len(),
            text::texts(parts@) == text::fields(host_options@, ','),
            t == text::fields(host_options@, ',').map_values(|o: Seq<char>| text::trimmed(o)),
            p == (|o: Seq<char>| o.len() > 0 && !is_modifier_option(o)),
            text::texts(opts@) == t.take(i as int).filter(p),
        decreases parts@.len() - i,
    {
        let ghost before = text::texts(opts@);
        let o = text::trim(parts[i].as_str());
        proof {
            reveal(Seq::filter);
            assert(text::texts(parts@)[i as int] == parts@[i as int]@);
            assert(t[i as int] == o@);
            assert(t.take(i + 1).drop_last() =~= t.take(i as int));
            assert(t.take(i + 1).last() == o@);
            text::lemma_fields_nonempty(o@, ':');
        }
        let g = text::split(o.as_str(), ':');
        assert(text::texts(g@).len() == g@.len());
        assert(text::texts(g@)[0] == g@[0]@);
        if !o.as_str().is_empty() && !text::same(g[0].as_str(), "altwin") && !text::same(
            g[0].as_str(),
            "ctrl",
        ) {
            opts.push(o);
            assert(text::texts(opts@) =~= before.push(o@));
        }
        i = i + 1;
    }
    assert(text::texts(parts@).len() == parts@.len());
    assert(t.take(i as int) =~= t);
    let ghost kept = text::texts(opts@);
    if !text::same(choice, "none") {
        opts.push(choice.to_owned());
        assert(text::texts(opts@) =~= kept.push(choice@));
    }
    text::join(&opts, ",")
}

/// The keyboard file that is published: one value to a line.
pub open spec fn keyboard_text(
    model: Seq<char>,
    layout: Seq<char>,
    variant: Seq<char>,
    options: Seq<char>,
) -> Seq<char> {
    model + seq!['\n'] + layout + seq!['\n'] + variant + seq!['\n'] + options + seq!['\n']
}

/// The keyboard file for the host's keyboard and a configured mapping.
pub fn published_keyboard(host: &HostKeyboard, choice: &str) -> (r: String)
    ensures
        r@ == keyboard_text(
            host.model@,
            host.layout@,
            host.variant@,
            option_list(host.options@, choice@),
        ),
{
    let options = options_for(host.options.as_str(), choice);
    let mut s = String::new();
    s.append(host.model.as_str());
    s.push('\n');
    s.append(host.layout.as_str());
    s.push('\n');
    s.append(host.variant.as_str());
    s.push('\n');
    s.append(options.as_str());
    s.push('\n');
    assert(s@ =~= keyboard_text(host.model@, host.layout@, host.variant@, options@));
    s
}

/// Every mapping on offer is accepted under its own label.
pub proof fn law_every_choice_has_its_label(i: int)
    requires
        0 <= i < choice_list().len(),
    ensures
        pairs::lookup(choice_list(), choice_list()[i].0) == Some(choice_list()[i].1),
{
    reveal_strlit("system");
    reveal_strlit("none");
    reveal_strlit("altwin:ctrl_win");
    reveal_strlit("altwin:alt_win");
    reveal_strlit("altwin:ctrl_alt_win");
    reveal_strlit("ctrl:swap_lwin_lctl");
    reveal_strlit("ctrl:swap_lalt_lctl");
    reveal_strlit("ctrl:nocaps");
    let c = choice_list();
    assert forall|a: int, b: int| 0 <= a < b < 8 implies #[trigger] c[a].0 != #[trigger] c[b].0 by {
        if c[a].0 == c[b].0 {
            assert(c[a].0.len() == c[b].0.len());
            assert(c[a].0[0] == c[b].0[0]);
            if a == 5 && b == 6 {
                assert(c[a].0[11] == c[b].0[11]);
            }
        }
    }
    pairs::lemma_lookup_at(c, i);
}

/// A mapping replaces the modifier options of the host and no others: an option
/// of another group stays, in its place.
pub proof fn law_a_mapping_keeps_the_other_options(host: Seq<char>, o: Seq<char>)
    requires
        o.len() > 0,
        !is_modifier_option(o),
    ensures
        kept_options(host).contains(o) <==> text::fields(host, ',').map_values(
            |x: Seq<char>| text::trimmed(x),
        ).contains(o),
        forall|k: int|
            0 <= k < kept_options(host).len() ==> !is_modifier_option(#[trigger] kept_options(host)[k]),
{
    let t = text::fields(host, ',').map_values(|x: Seq<char>| text::trimmed(x));
    lemma_filter_kept(t, o);
}

proof fn lemma_filter_kept(t: Seq<Seq<char>>, o: Seq<char>)
    requires
        o.len() > 0,
        !is_modifier_option(o),
    ensures
        ({
            let k = t.filter(|x: Seq<char>| x.len() > 0 && !is_modifier_option(x));
            &&& k.contains(o) <==> t.contains(o)
            &&& forall|j: int| 0 <= j < k.len() ==> !is_modifier_option(#[trigger] k[j])
        }),
    decreases t.len(),
{
    reveal(Seq::filter);
    let p = |x: Seq<char>| x.len() > 0 && !is_modifier_option(x);
    if t.len() > 0 {
        let h = t.drop_last();
        lemma_filter_kept(h, o);
        let k = t.filter(p);
        let hk = h.filter(p);
        if t.contains(o) {
            let j = choose|j: int| 0 <= j < t.len() && t[j] == o;
            if j < h.len() {
                assert(h[j] == o);
                let m = choose|m: int| 0 <= m < hk.len() && hk[m] == o;
                assert(k[m] == o);
            } else {
                assert(k[k.len() - 1] == o);
            }
        }
        if k.contains(o) {
            let m = choose|m: int| 0 <= m < k.len() && k[m] == o;
            if m < hk.len() {
                assert(hk[m] == o);
                let j = choose|j: int| 0 <= j < h.len() && h[j] == o;
                assert(t[j] == o);
            } else {
                assert(t[t.len() - 1] == o);
            }
        }
        assert forall|j: int| 0 <= j < k.len() implies !is_modifier_option(#[trigger] k[j]) by {
            if j < hk.len() {
                assert(k[j] == hk[j]);
            }
        }
    }
}

/// The host's options are used as they are where the mapping follows the host; without a
/// mapping those of other groups are, and with one it stands behind them.
pub proof fn law_a_mapping_stands_behind_the_other_options(host: Seq<char>, choice: Seq<char>)
    requires
        choice != "system"@,
        choice != "none"@,
        !choice.contains(','),
    ensures
        option_list(host, "system"@) == host,
        text::fields(option_list(host, choice), ',') == kept_options(host).push(choice),
        kept_options(host).len() > 0 ==> text::fields(option_list(host, "none"@), ',') == kept_options(host),
        kept_options(host).len() == 0 ==> option_list(host, "none"@) == Seq::<char>::empty(),
{
    reveal_strlit("system");
    reveal_strlit("none");
    reveal_strlit(",");
    assert("system"@.len() == 6 && "none"@.len() == 4);
    assert(","@ =~= seq![',']);
    let k = kept_options(host);
    lemma_kept_hold_no_comma(host);
    let all = k.push(choice);
    assert forall|i: int| 0 <= i < all.len() implies !(#[trigger] all[i]).contains(',') by {
        if i < k.len() {
            assert(all[i] == k[i]);
        }
    }
    text::lemma_joined_fields(all, ',');
    if k.len() > 0 {
        text::lemma_joined_fields(k, ',');
    }
}

proof fn lemma_kept_hold_no_comma(host: Seq<char>)
    ensures
        forall|i: int| 0 <= i < kept_options(host).len() ==> !(#[trigger] kept_options(host)[i]).contains(','),
{
    let fs = text::fields(host, ',');
    text::lemma_fields_are_clean(host, ',');
    let t = fs.map_values(|o: Seq<char>| text::trimmed(o));
    assert forall|i: int| 0 <= i < t.len() implies !(#[trigger] t[i]).contains(',') by {
        text::lemma_trimmed_within(fs[i], ',');
        assert(!fs[i].contains(','));
    }
    lemma_filter_within(t);
}

proof fn lemma_filter_within(t: Seq<Seq<char>>)
    requires
        forall|i: int| 0 <= i < t.len() ==> !(#[trigger] t[i]).contains(','),
    ensures
        ({
            let k = t.filter(|o: Seq<char>| o.len() > 0 && !is_modifier_option(o));
            forall|i: int| 0 <= i < k.len() ==> !(#[trigger] k[i]).contains(',')
        }),
    decreases t.len(),
{
    reveal(Seq::filter);
    if t.len() > 0 {
        let d = t.drop_last();
        assert forall|i: int| 0 <= i < d.len() implies !(#[trigger] d[i]).contains(',') by {
            assert(d[i] == t[i]);
        }
        lemma_filter_within(d);
        let h = d.filter(|o: Seq<char>| o.len() > 0 && !is_modifier_option(o));
        let k = t.filter(|o: Seq<char>| o.len() > 0 && !is_modifier_option(o));
        assert(!t[t.len() - 1].contains(','));
        assert forall|i: int| 0 <= i < k.len() implies !(#[trigger] k[i]).contains(',') by {
            if i < h.len() {
                assert(k[i] == h[i]);
            }
        }
    }
}

/// The options of the host are kept in their order; those of the two groups that a mapping
/// owns are left out.
pub proof fn law_options_are_kept_in_order(host: Seq<char>, o: Seq<char>)
    requires
        !o.contains(','),
        o.len() > 0,
        !text::is_space(o[0]),
        !text::is_space(o.last()),
    ensures
        kept_options(host + seq![','] + o) == if is_modifier_option(o) {
            kept_options(host)
        } else {
            kept_options(host).push(o)
        },
{
    text::lemma_fields_push(host, o, ',');
    text::lemma_trimmed_is(o);
    let f = text::fields(host, ',');
    let g = |x: Seq<char>| text::trimmed(x);
    let p = |x: Seq<char>| x.len() > 0 && !is_modifier_option(x);
    reveal(Seq::filter);
    assert(f.push(o).map_values(g) =~= f.map_values(g).push(o));
    assert(f.map_values(g).push(o).drop_last() =~= f.map_values(g));
}

/// An option belongs to a mapping by its group: what stands before its first colon.
pub proof fn law_an_option_has_its_group(group: Seq<char>, rest: Seq<char>)
    requires
        !group.contains(':'),
    ensures
        is_modifier_option(group + seq![':'] + rest) <==> group == "altwin"@ || group == "ctrl"@,
{
    text::lemma_fields_cons(group, rest, ':');
}

/// Every mapping that can be chosen is an option of one of the two groups, or one of the
/// two words for none of one's own.
pub proof fn law_every_mapping_is_offered()
    ensures
        choice_list().len() == 8,
        choice_list().contains(("system"@, "Host setting"@)),
        choice_list().contains(("none"@, "No remapping"@)),
        choice_list().contains(("altwin:ctrl_win"@, "Ctrl also acts as Win"@)),
        choice_list().contains(("altwin:alt_win"@, "Alt also acts as Win"@)),
        choice_list().contains(("altwin:ctrl_alt_win"@, "Ctrl acts as Alt, Alt as Win"@)),
        choice_list().contains(("ctrl:swap_lwin_lctl"@, "Swap Left Win and Left Ctrl"@)),
        choice_list().contains(("ctrl:swap_lalt_lctl"@, "Swap Left Alt and Left Ctrl"@)),
        choice_list().contains(("ctrl:nocaps"@, "Caps Lock as Ctrl"@)),
{
    let l = choice_list();
    assert(l[0] == ("system"@, "Host setting"@));
    assert(l[1] == ("none"@, "No remapping"@));
    assert(l[2] == ("altwin:ctrl_win"@, "Ctrl also acts as Win"@));
    assert(l[3] == ("altwin:alt_win"@, "Alt also acts as Win"@));
    assert(l[4] == ("altwin:ctrl_alt_win"@, "Ctrl acts as Alt, Alt as Win"@));
    assert(l[5] == ("ctrl:swap_lwin_lctl"@, "Swap Left Win and Left Ctrl"@));
    assert(l[6] == ("ctrl:swap_lalt_lctl"@, "Swap Left Alt and Left Ctrl"@));
    assert(l[7] == ("ctrl:nocaps"@, "Caps Lock as Ctrl"@));
}

} // verus!
