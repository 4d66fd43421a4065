//! The tray menu: what it shows, and what a click on one of its items asks
//! for.
//!
//! The menu is built as plain values (a [`MenuEntry`] tree of ids and
//! texts); drawing it with a GUI toolkit is left to the application.
use vstd::prelude::*;
use vstd::string::*;
use crate::command::{Invocation, InvocationView};
use crate::tailscale::{
    exit_nodes_view, machines_view, tailscale_command, ExitNode, ExitNodeView, MachineData,
    MachineView, Tailscale,
};
use crate::text::{
    concat_str, contains, eq_str, lemma_lex_lt_irreflexive, lemma_lex_lt_total,
    lemma_lex_lt_transitive, lemma_replace_all_absent, lemma_replace_all_prefix, lex_lt,
    lex_lt_str, replace_all, replace_all_str, starts_with, starts_with_str,
};

verus! {

/// The id of the item that turns Tailscale on or off.
pub const TOGGLE_ID: &'static str = "toggle";

/// The id of the item that quits the tray.
pub const QUIT_ID: &'static str = "quit";

/// The id of the item that refreshes the menu.
pub const REFRESH_ID: &'static str = "refresh";

/// The id of the item that stops using an exit node.
pub const DESELECT_EXIT_NODE_ID: &'static str = "deselect_exit_node";

/// The start of the id of an item that copies a machine's address.
pub const COPY_PREFIX: &'static str = "copy-";

/// The start of the id of an item that chooses an exit node.
pub const SET_EXIT_NODE_PREFIX: &'static str = "set-exit-node-";

/// The mark of the current exit node.
pub const ACTIVE_ICON: &'static str = "🔽";

/// The mark of an online machine.
pub const ONLINE_ICON: &'static str = "🟢";

/// The mark of an offline machine.
pub const OFFLINE_ICON: &'static str = "⚫";

/// What stands before the text of the current exit node, and before the
/// name of a country that holds it.
pub const ACTIVE_PREFIX: &'static str = "🔽 ";

/// A clickable menu item: its id and its text.
#[derive(Debug)]
pub struct MenuItemModel {
    pub id: String,
    pub text: String,
}

/// An entry of a submenu: an item, or a further submenu of items.
#[derive(Debug)]
pub enum SubmenuEntry {
    Item(MenuItemModel),
    Submenu { text: String, items: Vec<MenuItemModel> },
}

/// An entry of the tray menu.
#[derive(Debug)]
pub enum MenuEntry {
    Item(MenuItemModel),
    Separator,
    Submenu { text: String, entries: Vec<SubmenuEntry> },
}

/// What a click on a menu item asks for.
#[derive(Debug)]
pub enum AppMessage {
    Toggle,
    Refresh,
    Quit,
    DeselectExitNode,
    SetExitNode(String),
    CopyIp(String),
}

/// What the tray does in answer to a message.
#[derive(Debug)]
pub enum TrayAction {
    /// Build the menu anew from the current state.
    RebuildMenu,
    /// Read whether Tailscale runs, and run the command that toggles it.
    ToggleTailscale,
    /// Put the text on the clipboard.
    CopyToClipboard(String),
    /// Run a Tailscale command.
    RunTailscale(Invocation),
    /// Leave the GUI loop.
    Quit,
}

// ---------------------------------------------------------------------------
// Views
// ---------------------------------------------------------------------------

pub struct ItemView {
    pub id: Seq<char>,
    pub text: Seq<char>,
}

impl View for MenuItemModel {
    type V = ItemView;

    open spec fn view(&self) -> ItemView {
        ItemView { id: self.id@, text: self.text@ }
    }
}

pub enum SubmenuEntryView {
    Item(ItemView),
    Submenu { text: Seq<char>, items: Seq<ItemView> },
}

pub open spec fn items_view(v: Seq<MenuItemModel>) -> Seq<ItemView> {
    v.map_values(|i: MenuItemModel| i@)
}

impl View for SubmenuEntry {
    type V = SubmenuEntryView;

    open spec fn view(&self) -> SubmenuEntryView {
        match self {
            SubmenuEntry::Item(i) => SubmenuEntryView::Item(i@),
            SubmenuEntry::Submenu { text, items } => SubmenuEntryView::Submenu {
                text: text@,
                items: items_view(items@),
            },
        }
    }
}

pub open spec fn sub_entries_view(v: Seq<SubmenuEntry>) -> Seq<SubmenuEntryView> {
    v.map_values(|e: SubmenuEntry| e@)
}

pub enum EntryView {
    Item(ItemView),
    Separator,
    Submenu { text: Seq<char>, entries: Seq<SubmenuEntryView> },
}

impl View for MenuEntry {
    type V = EntryView;

    open spec fn view(&self) -> EntryView {
        match self {
            MenuEntry::Item(i) => EntryView::Item(i@),
            MenuEntry::Separator => EntryView::Separator,
            MenuEntry::Submenu { text, entries } => EntryView::Submenu {
                text: text@,
                entries: sub_entries_view(entries@),
            },
        }
    }
}

pub open spec fn entries_view(v: Seq<MenuEntry>) -> Seq<EntryView> {
    v.map_values(|e: MenuEntry| e@)
}

pub enum MessageView {
    Toggle,
    Refresh,
    Quit,
    DeselectExitNode,
    SetExitNode(Seq<char>),
    CopyIp(Seq<char>),
}

impl View for AppMessage {
    type V = MessageView;

    open spec fn view(&self) -> MessageView {
        match self {
            AppMessage::Toggle => MessageView::Toggle,
            AppMessage::Refresh => MessageView::Refresh,
            AppMessage::Quit => MessageView::Quit,
            AppMessage::DeselectExitNode => MessageView::DeselectExitNode,
            AppMessage::SetExitNode(h) => MessageView::SetExitNode(h@),
            AppMessage::CopyIp(ip) => MessageView::CopyIp(ip@),
        }
    }
}

pub open spec fn opt_message_view(m: Option<AppMessage>) -> Option<MessageView> {
    match m {
        Some(m) => Some(m@),
        None => None,
    }
}

pub enum ActionView {
    RebuildMenu,
    ToggleTailscale,
    CopyToClipboard(Seq<char>),
    RunTailscale(InvocationView),
    Quit,
}

impl View for TrayAction {
    type V = ActionView;

    open spec fn view(&self) -> ActionView {
        match self {
            TrayAction::RebuildMenu => ActionView::RebuildMenu,
            TrayAction::ToggleTailscale => ActionView::ToggleTailscale,
            TrayAction::CopyToClipboard(t) => ActionView::CopyToClipboard(t@),
            TrayAction::RunTailscale(inv) => ActionView::RunTailscale(inv@),
            TrayAction::Quit => ActionView::Quit,
        }
    }
}

pub open spec fn actions_view(v: Seq<TrayAction>) -> Seq<ActionView> {
    v.map_values(|a: TrayAction| a@)
}

// ---------------------------------------------------------------------------
// What the menu shows
// ---------------------------------------------------------------------------

pub open spec fn item(id: Seq<char>, text: Seq<char>) -> ItemView {
    ItemView { id, text }
}

/// The text of the toggle item.
pub open spec fn toggle_text(is_enabled: bool) -> Seq<char> {
    if is_enabled {
        "Turn Tailscale Off"@
    } else {
        "Turn Tailscale On"@
    }
}

/// The toggle, refresh and quit items.
pub open spec fn control_items(is_enabled: bool) -> (ItemView, ItemView, ItemView) {
    (
        item(TOGGLE_ID@, toggle_text(is_enabled)),
        item(REFRESH_ID@, "Refresh"@),
        item(QUIT_ID@, "Quit"@),
    )
}

/// The mark of a machine: current exit node, online, or offline.
pub open spec fn machine_icon(m: MachineView) -> Seq<char> {
    if m.is_exit_node {
        ACTIVE_ICON@
    } else if m.online {
        ONLINE_ICON@
    } else {
        OFFLINE_ICON@
    }
}

/// The item of a machine, which copies its address.
pub open spec fn machine_item(m: MachineView) -> ItemView {
    item(COPY_PREFIX@ + m.ip, machine_icon(m) + " "@ + m.hostname + " ("@ + m.ip + ")"@)
}

pub open spec fn machine_entries(ms: Seq<MachineView>) -> Seq<EntryView> {
    ms.map_values(|m: MachineView| EntryView::Item(machine_item(m)))
}

/// Some machine, or some VPN node, is the current exit node.
pub open spec fn some_exit_node_active(ms: Seq<MachineView>, nodes: Seq<ExitNodeView>) -> bool {
    ||| exists|i: int| 0 <= i < ms.len() && (#[trigger] ms[i]).is_exit_node
    ||| exists|i: int|
        0 <= i < nodes.len() && (#[trigger] nodes[i] matches ExitNodeView::VPN {
            is_exit_node,
            ..
        } && is_exit_node)
}

/// The id of the item that chooses the exit node `hostname`.
pub open spec fn exit_item_id(hostname: Seq<char>) -> Seq<char> {
    SET_EXIT_NODE_PREFIX@ + hostname
}

/// The items of the "Exit Node" submenu: one per machine that offers itself.
pub open spec fn machine_exit_entries(nodes: Seq<ExitNodeView>) -> Seq<SubmenuEntryView>
    decreases nodes.len(),
{
    if nodes.len() == 0 {
        seq![]
    } else {
        let rest = machine_exit_entries(nodes.drop_last());
        match nodes.last() {
            ExitNodeView::Machine { hostname, .. } => rest.push(
                SubmenuEntryView::Item(item(exit_item_id(hostname), hostname)),
            ),
            ExitNodeView::VPN { .. } => rest,
        }
    }
}

/// The item of a VPN node: its location, marked when it is the current exit node.
pub open spec fn vpn_item(
    hostname: Seq<char>,
    country: Seq<char>,
    city: Seq<char>,
    is_exit_node: bool,
) -> ItemView {
    item(
        exit_item_id(hostname),
        (if is_exit_node {
            ACTIVE_PREFIX@
        } else {
            ""@
        }) + country + " - "@ + city,
    )
}

/// The items of the VPN nodes of a country, in order.
pub open spec fn country_items(nodes: Seq<ExitNodeView>, country: Seq<char>) -> Seq<ItemView>
    decreases nodes.len(),
{
    if nodes.len() == 0 {
        seq![]
    } else {
        let rest = country_items(nodes.drop_last(), country);
        match nodes.last() {
            ExitNodeView::VPN { hostname, country: c, city, is_exit_node } => if c == country {
                rest.push(vpn_item(hostname, c, city, is_exit_node))
            } else {
                rest
            },
            ExitNodeView::Machine { .. } => rest,
        }
    }
}

/// The country of a VPN node.
pub open spec fn vpn_country(e: ExitNodeView) -> Option<Seq<char>> {
    match e {
        ExitNodeView::VPN { country, .. } => Some(country),
        ExitNodeView::Machine { .. } => None,
    }
}

/// The countries that VPN nodes are in.
pub open spec fn vpn_countries(nodes: Seq<ExitNodeView>) -> Set<Seq<char>> {
    Set::new(
        |c: Seq<char>| exists|i: int| 0 <= i < nodes.len() && #[trigger] vpn_country(nodes[i]) == Some(c),
    )
}

/// Each text comes before the next in the order of strings.
pub open spec fn strictly_sorted(cs: Seq<Seq<char>>) -> bool {
    forall|i: int, j: int| 0 <= i < j < cs.len() ==> lex_lt(#[trigger] cs[i], #[trigger] cs[j])
}

/// The countries of the VPN nodes, each once, in the order of strings.
pub open spec fn sorted_countries(nodes: Seq<ExitNodeView>) -> Seq<Seq<char>> {
    choose|cs: Seq<Seq<char>>| strictly_sorted(cs) && cs.to_set() == vpn_countries(nodes)
}

/// Some item's text carries the mark of the current exit node.
pub open spec fn marks_active(items: Seq<ItemView>) -> bool {
    exists|i: int| 0 <= i < items.len() && starts_with(#[trigger] items[i].text, ACTIVE_PREFIX@)
}

/// The entry of a country in the "VPN Exit Nodes" submenu: its only item,
/// or a submenu of its items named after it, marked when it holds the
/// current exit node.
pub open spec fn country_entry(nodes: Seq<ExitNodeView>, country: Seq<char>) -> SubmenuEntryView {
    let items = country_items(nodes, country);
    if items.len() == 1 {
        SubmenuEntryView::Item(items[0])
    } else {
        SubmenuEntryView::Submenu {
            text: if marks_active(items) {
                ACTIVE_PREFIX@ + country
            } else {
                country
            },
            items,
        }
    }
}

pub open spec fn vpn_entries(nodes: Seq<ExitNodeView>) -> Seq<SubmenuEntryView> {
    sorted_countries(nodes).map_values(|c: Seq<char>| country_entry(nodes, c))
}

/// The exit-node part of the menu, shown when there are exit nodes.
pub open spec fn exit_node_menus(nodes: Seq<ExitNodeView>) -> Seq<EntryView> {
    if nodes.len() > 0 {
        seq![
            EntryView::Separator,
            EntryView::Submenu { text: "Exit Node"@, entries: machine_exit_entries(nodes) },
            EntryView::Submenu { text: "VPN Exit Nodes"@, entries: vpn_entries(nodes) },
        ]
    } else {
        seq![]
    }
}

/// The "Deselect Exit Node" item and its separator, shown while some exit
/// node is in use.
pub open spec fn deselect_entries(ms: Seq<MachineView>, nodes: Seq<ExitNodeView>) -> Seq<EntryView> {
    if some_exit_node_active(ms, nodes) {
        seq![
            EntryView::Item(item(DESELECT_EXIT_NODE_ID@, "Deselect Exit Node"@)),
            EntryView::Separator,
        ]
    } else {
        seq![]
    }
}

/// The whole tray menu.
pub open spec fn menu_view(
    is_enabled: bool,
    ms: Seq<MachineView>,
    nodes: Seq<ExitNodeView>,
) -> Seq<EntryView> {
    let (t, r, q) = control_items(is_enabled);
    let body = if is_enabled {
        seq![EntryView::Item(t), EntryView::Item(r), EntryView::Separator] + deselect_entries(
            ms,
            nodes,
        ) + machine_entries(ms) + exit_node_menus(nodes)
    } else {
        seq![EntryView::Item(t), EntryView::Item(r)]
    };
    body + seq![EntryView::Separator, EntryView::Item(q)]
}

/// What a click on the item with this id asks for.
pub open spec fn message_for(id: Seq<char>) -> Option<MessageView> {
    if id == TOGGLE_ID@ {
        Some(MessageView::Toggle)
    } else if id == REFRESH_ID@ {
        Some(MessageView::Refresh)
    } else if id == DESELECT_EXIT_NODE_ID@ {
        Some(MessageView::DeselectExitNode)
    } else if id == QUIT_ID@ {
        Some(MessageView::Quit)
    } else if starts_with(id, COPY_PREFIX@) {
        Some(MessageView::CopyIp(replace_all(id, COPY_PREFIX@, ""@)))
    } else if starts_with(id, SET_EXIT_NODE_PREFIX@) {
        Some(MessageView::SetExitNode(replace_all(id, SET_EXIT_NODE_PREFIX@, ""@)))
    } else {
        None
    }
}

/// What the tray does in answer to a message.
pub open spec fn actions_for_message(m: MessageView) -> Seq<ActionView> {
    match m {
        MessageView::Refresh => seq![ActionView::RebuildMenu],
        MessageView::Toggle => seq![ActionView::ToggleTailscale, ActionView::RebuildMenu],
        MessageView::CopyIp(ip) => seq![ActionView::CopyToClipboard(ip)],
        MessageView::DeselectExitNode => seq![
            ActionView::RunTailscale(tailscale_command(seq!["set"@, "--exit-node="@ + ""@])),
            ActionView::RebuildMenu,
        ],
        MessageView::SetExitNode(h) => seq![
            ActionView::RunTailscale(tailscale_command(seq!["set"@, "--exit-node="@ + h])),
            ActionView::RebuildMenu,
        ],
        MessageView::Quit => seq![ActionView::Quit],
    }
}

// ---------------------------------------------------------------------------
// Sorting the countries
// ---------------------------------------------------------------------------

/// `c` put into its place in `cs`, unless it is already there.
pub open spec fn insert_sorted(cs: Seq<Seq<char>>, c: Seq<char>) -> Seq<Seq<char>>
    decreases cs.len(),
{
    if cs.len() == 0 {
        seq![c]
    } else if cs[0] == c {
        cs
    } else if lex_lt(c, cs[0]) {
        seq![c] + cs
    } else {
        seq![cs[0]] + insert_sorted(cs.drop_first(), c)
    }
}

/// The countries of the VPN nodes, each put into its place in turn.
pub open spec fn countries_by_insertion(nodes: Seq<ExitNodeView>) -> Seq<Seq<char>>
    decreases nodes.len(),
{
    if nodes.len() == 0 {
        seq![]
    } else {
        let rest = countries_by_insertion(nodes.drop_last());
        match vpn_country(nodes.last()) {
            Some(c) => insert_sorted(rest, c),
            None => rest,
        }
    }
}

proof fn lemma_insert_sorted(cs: Seq<Seq<char>>, c: Seq<char>)
    requires
        strictly_sorted(cs),
    ensures
        strictly_sorted(insert_sorted(cs, c)),
        insert_sorted(cs, c).to_set() == cs.to_set().insert(c),
        insert_sorted(cs, c).len() > 0,
        insert_sorted(cs, c)[0] == c || (cs.len() > 0 && insert_sorted(cs, c)[0] == cs[0]),
    decreases cs.len(),
{
    let r = insert_sorted(cs, c);
    if cs.len() == 0 {
        assert(r.to_set() =~= cs.to_set().insert(c)) by {
            assert forall|x| r.to_set().contains(x) <==> cs.to_set().insert(c).contains(x) by {
                if x == c {
                    assert(r[0] == c);
                }
            }
        }
    } else if cs[0] == c {
        assert(r.to_set() =~= cs.to_set().insert(c)) by {
            assert(cs.contains(cs[0]));
        }
    } else if lex_lt(c, cs[0]) {
        assert forall|i: int, j: int| 0 <= i < j < r.len() implies lex_lt(
            #[trigger] r[i],
            #[trigger] r[j],
        ) by {
            if i == 0 {
                if j > 1 {
                    lemma_lex_lt_transitive(c, cs[0], cs[j - 1]);
                }
            } else {
                assert(r[i] == cs[i - 1] && r[j] == cs[j - 1]);
            }
        }
        assert(r.to_set() =~= cs.to_set().insert(c)) by {
            assert forall|x| r.to_set().contains(x) <==> cs.to_set().insert(c).contains(x) by {
                if r.contains(x) {
                    let k = choose|k: int| 0 <= k < r.len() && r[k] == x;
                    if k > 0 {
                        assert(cs[k - 1] == x);
                    }
                }
                if cs.contains(x) {
                    let k = choose|k: int| 0 <= k < cs.len() && cs[k] == x;
                    assert(r[k + 1] == x);
                }
                if x == c {
                    assert(r[0] == c);
                }
            }
        }
    } else {
        let tail = cs.drop_first();
        assert(strictly_sorted(tail)) by {
            assert forall|i: int, j: int| 0 <= i < j < tail.len() implies lex_lt(
                #[trigger] tail[i],
                #[trigger] tail[j],
            ) by {
                assert(tail[i] == cs[i + 1] && tail[j] == cs[j + 1]);
            }
        }
        lemma_insert_sorted(tail, c);
        let t2 = insert_sorted(tail, c);
        lemma_lex_lt_total(c, cs[0]);
        // cs[0] comes before c and before every element of the tail.
        assert forall|i: int, j: int| 0 <= i < j < r.len() implies lex_lt(
            #[trigger] r[i],
            #[trigger] r[j],
        ) by {
            if i == 0 {
                assert(r[j] == t2[j - 1]);
                assert(t2.to_set().contains(t2[j - 1]));
                assert(t2.contains(t2[j - 1]));
                if t2[j - 1] == c {
                } else {
                    assert(tail.to_set().contains(t2[j - 1]));
                    let k = choose|k: int| 0 <= k < tail.len() && tail[k] == t2[j - 1];
                    assert(cs[k + 1] == tail[k]);
                    assert(lex_lt(cs[0], cs[k + 1]));
                }
            } else {
                assert(r[i] == t2[i - 1] && r[j] == t2[j - 1]);
            }
        }
        assert(r.to_set() =~= cs.to_set().insert(c)) by {
            assert forall|x| r.to_set().contains(x) <==> cs.to_set().insert(c).contains(x) by {
                if r.contains(x) {
                    let k = choose|k: int| 0 <= k < r.len() && r[k] == x;
                    if k > 0 {
                        assert(t2[k - 1] == x);
                        assert(t2.contains(x));
                        assert(t2.to_set().contains(x));
                        if x != c {
                            assert(tail.contains(x));
                            let m = choose|m: int| 0 <= m < tail.len() && tail[m] == x;
                            assert(cs[m + 1] == x);
                        }
                    } else {
                        assert(cs[0] == x);
                    }
                }
                if cs.contains(x) {
                    let k = choose|k: int| 0 <= k < cs.len() && cs[k] == x;
                    if k == 0 {
                        assert(r[0] == x);
                    } else {
                        assert(tail[k - 1] == x);
                        assert(tail.contains(x));
                        assert(t2.to_set().contains(x));
                        let m = choose|m: int| 0 <= m < t2.len() && t2[m] == x;
                        assert(r[m + 1] == x);
                    }
                }
                if x == c {
                    assert(t2.to_set().contains(c));
                    let m = choose|m: int| 0 <= m < t2.len() && t2[m] == c;
                    assert(r[m + 1] == c);
                }
            }
        }
    }
}

/// The countries by insertion are sorted and are the VPN countries.
proof fn lemma_countries_by_insertion(nodes: Seq<ExitNodeView>)
    ensures
        strictly_sorted(countries_by_insertion(nodes)),
        countries_by_insertion(nodes).to_set() == vpn_countries(nodes),
    decreases nodes.len(),
{
    if nodes.len() == 0 {
        assert(countries_by_insertion(nodes).to_set() =~= vpn_countries(nodes));
    } else {
        let init = nodes.drop_last();
        lemma_countries_by_insertion(init);
        let rest = countries_by_insertion(init);
        match vpn_country(nodes.last()) {
            Some(c) => {
                lemma_insert_sorted(rest, c);
            },
            None => {},
        }
        assert(countries_by_insertion(nodes).to_set() =~= vpn_countries(nodes)) by {
            assert forall|x| #[trigger] vpn_countries(nodes).contains(x) <==> (vpn_countries(
                init,
            ).contains(x) || vpn_country(nodes.last()) == Some(x)) by {
                if vpn_countries(nodes).contains(x) {
                    let i = choose|i: int|
                        0 <= i < nodes.len() && #[trigger] vpn_country(nodes[i]) == Some(x);
                    if i < nodes.len() - 1 {
                        assert(init[i] == nodes[i]);
                    }
                }
                if vpn_countries(init).contains(x) {
                    let i = choose|i: int|
                        0 <= i < init.len() && #[trigger] vpn_country(init[i]) == Some(x);
                    assert(init[i] == nodes[i]);
                }
                if vpn_country(nodes.last()) == Some(x) {
                    assert(vpn_country(nodes[nodes.len() - 1]) == Some(x));
                }
            }
        }
    }
}

/// Two strictly sorted sequences with the same elements are equal.
proof fn lemma_sorted_unique(a: Seq<Seq<char>>, b: Seq<Seq<char>>)
    requires
        strictly_sorted(a),
        strictly_sorted(b),
        a.to_set() == b.to_set(),
    ensures
        a == b,
    decreases a.len(),
{
    if a.len() == 0 {
        if b.len() > 0 {
            assert(b.to_set().contains(b[0]));
        }
        assert(a =~= b);
    } else if b.len() == 0 {
        assert(a.to_set().contains(a[0]));
    } else {
        assert(b.to_set().contains(a[0])) by {
            assert(a.to_set().contains(a[0]));
        }
        assert(a.to_set().contains(b[0])) by {
            assert(b.to_set().contains(b[0]));
        }
        let k = choose|k: int| 0 <= k < b.len() && b[k] == a[0];
        let m = choose|m: int| 0 <= m < a.len() && a[m] == b[0];
        if k > 0 && m > 0 {
            assert(lex_lt(b[0], b[k]));
            assert(lex_lt(a[0], a[m]));
            lemma_lex_lt_total(a[0], b[0]);
        } else if k == 0 {
        } else {
        }
        assert(a[0] == b[0]);
        let a2 = a.drop_first();
        let b2 = b.drop_first();
        assert(strictly_sorted(a2)) by {
            assert forall|i: int, j: int| 0 <= i < j < a2.len() implies lex_lt(
                #[trigger] a2[i],
                #[trigger] a2[j],
            ) by {
                assert(a2[i] == a[i + 1] && a2[j] == a[j + 1]);
            }
        }
        assert(strictly_sorted(b2)) by {
            assert forall|i: int, j: int| 0 <= i < j < b2.len() implies lex_lt(
                #[trigger] b2[i],
                #[trigger] b2[j],
            ) by {
                assert(b2[i] == b[i + 1] && b2[j] == b[j + 1]);
            }
        }
        assert(a2.to_set() =~= b2.to_set()) by {
            assert forall|x| a2.to_set().contains(x) implies b2.to_set().contains(x) by {
                let i = choose|i: int| 0 <= i < a2.len() && a2[i] == x;
                assert(a[i + 1] == x);
                assert(lex_lt(a[0], a[i + 1]));
                lemma_lex_lt_irreflexive(x);
                assert(a.to_set().contains(x));
                assert(b.contains(x));
                let j = choose|j: int| 0 <= j < b.len() && b[j] == x;
                assert(j != 0);
                assert(b2[j - 1] == x);
            }
            assert forall|x| b2.to_set().contains(x) implies a2.to_set().contains(x) by {
                let i = choose|i: int| 0 <= i < b2.len() && b2[i] == x;
                assert(b[i + 1] == x);
                assert(lex_lt(b[0], b[i + 1]));
                lemma_lex_lt_irreflexive(x);
                assert(b.to_set().contains(x));
                assert(a.contains(x));
                let j = choose|j: int| 0 <= j < a.len() && a[j] == x;
                assert(j != 0);
                assert(a2[j - 1] == x);
            }
        }
        lemma_sorted_unique(a2, b2);
        assert(a =~= seq![a[0]] + a2);
        assert(b =~= seq![b[0]] + b2);
    }
}

/// The VPN countries of the menu are listed each once, in the order of
/// strings.
pub proof fn lemma_vpn_countries_sorted(nodes: Seq<ExitNodeView>)
    ensures
        strictly_sorted(sorted_countries(nodes)),
        sorted_countries(nodes).to_set() == vpn_countries(nodes),
        sorted_countries(nodes) == countries_by_insertion(nodes),
{
    lemma_countries_by_insertion(nodes);
    let w = countries_by_insertion(nodes);
    assert(strictly_sorted(w) && w.to_set() == vpn_countries(nodes));
    let cs = sorted_countries(nodes);
    lemma_sorted_unique(cs, w);
}

// ---------------------------------------------------------------------------
// What a click on a menu item asks for
// ---------------------------------------------------------------------------

/// A click on the toggle, refresh, quit or deselect item asks for what the
/// item says.
pub proof fn lemma_control_item_clicks(is_enabled: bool)
    ensures
        message_for(control_items(is_enabled).0.id) == Some(MessageView::Toggle),
        message_for(control_items(is_enabled).1.id) == Some(MessageView::Refresh),
        message_for(control_items(is_enabled).2.id) == Some(MessageView::Quit),
        message_for(DESELECT_EXIT_NODE_ID@) == Some(MessageView::DeselectExitNode),
{
    reveal_strlit("toggle");
    reveal_strlit("refresh");
    reveal_strlit("quit");
    reveal_strlit("deselect_exit_node");
    assert(TOGGLE_ID@.len() == 6 && REFRESH_ID@.len() == 7 && QUIT_ID@.len() == 4);
    assert(DESELECT_EXIT_NODE_ID@.len() == 18);
}

/// An id that starts with a prefix: it differs from every control id, whose
/// first character differs from the prefix's.
proof fn lemma_prefixed_id_not_control(p: Seq<char>, x: Seq<char>)
    requires
        p.len() > 0,
        p[0] != 't' && p[0] != 'r' && p[0] != 'd' && p[0] != 'q',
    ensures
        p + x != TOGGLE_ID@,
        p + x != REFRESH_ID@,
        p + x != DESELECT_EXIT_NODE_ID@,
        p + x != QUIT_ID@,
{
    reveal_strlit("toggle");
    reveal_strlit("refresh");
    reveal_strlit("quit");
    reveal_strlit("deselect_exit_node");
    assert((p + x)[0] == p[0]);
}

/// A click on a machine's item asks to copy its address (unless the
/// address itself holds "copy-", which the click cuts out too).
pub proof fn lemma_machine_item_click(m: MachineView)
    requires
        !contains(m.ip, COPY_PREFIX@),
    ensures
        message_for(machine_item(m).id) == Some(MessageView::CopyIp(m.ip)),
{
    reveal_strlit("copy-");
    let id = COPY_PREFIX@ + m.ip;
    lemma_prefixed_id_not_control(COPY_PREFIX@, m.ip);
    assert(id.take(COPY_PREFIX@.len() as int) =~= COPY_PREFIX@);
    lemma_replace_all_prefix(m.ip, COPY_PREFIX@, ""@);
    lemma_replace_all_absent(m.ip, COPY_PREFIX@, ""@);
    reveal_strlit("");
    assert(""@ + m.ip =~= m.ip);
}

/// A click on the item of an exit node asks to choose that node (unless
/// its name itself holds "set-exit-node-", which the click cuts out too).
pub proof fn lemma_exit_item_click(hostname: Seq<char>)
    requires
        !contains(hostname, SET_EXIT_NODE_PREFIX@),
    ensures
        message_for(exit_item_id(hostname)) == Some(MessageView::SetExitNode(hostname)),
{
    reveal_strlit("copy-");
    reveal_strlit("set-exit-node-");
    let id = SET_EXIT_NODE_PREFIX@ + hostname;
    lemma_prefixed_id_not_control(SET_EXIT_NODE_PREFIX@, hostname);
    assert(id.take(COPY_PREFIX@.len() as int)[0] != COPY_PREFIX@[0]);
    assert(id.take(SET_EXIT_NODE_PREFIX@.len() as int) =~= SET_EXIT_NODE_PREFIX@);
    lemma_replace_all_prefix(hostname, SET_EXIT_NODE_PREFIX@, ""@);
    lemma_replace_all_absent(hostname, SET_EXIT_NODE_PREFIX@, ""@);
    reveal_strlit("");
    assert(""@ + hostname =~= hostname);
}

/// A click on an id that starts with "copy-" asks for something.
proof fn lemma_copy_id_answers(ip: Seq<char>)
    ensures
        message_for(COPY_PREFIX@ + ip) is Some,
{
    reveal_strlit("copy-");
    lemma_prefixed_id_not_control(COPY_PREFIX@, ip);
    assert((COPY_PREFIX@ + ip).take(COPY_PREFIX@.len() as int) =~= COPY_PREFIX@);
}

/// A click on an id that starts with "set-exit-node-" asks for something.
proof fn lemma_set_id_answers(hostname: Seq<char>)
    ensures
        message_for(exit_item_id(hostname)) is Some,
{
    reveal_strlit("set-exit-node-");
    lemma_prefixed_id_not_control(SET_EXIT_NODE_PREFIX@, hostname);
    assert((SET_EXIT_NODE_PREFIX@ + hostname).take(SET_EXIT_NODE_PREFIX@.len() as int)
        =~= SET_EXIT_NODE_PREFIX@);
}

/// Every entry of the "Exit Node" submenu is an item that chooses a node.
proof fn lemma_machine_exit_entries_ids(nodes: Seq<ExitNodeView>)
    ensures
        forall|j: int|
            0 <= j < machine_exit_entries(nodes).len() ==> exists|h: Seq<char>|
                #[trigger] machine_exit_entries(nodes)[j] == SubmenuEntryView::Item(
                    item(exit_item_id(h), h),
                ),
    decreases nodes.len(),
{
    if nodes.len() > 0 {
        lemma_machine_exit_entries_ids(nodes.drop_last());
        let rest = machine_exit_entries(nodes.drop_last());
        let all = machine_exit_entries(nodes);
        assert forall|j: int| 0 <= j < all.len() implies exists|h: Seq<char>|
            #[trigger] all[j] == SubmenuEntryView::Item(item(exit_item_id(h), h)) by {
            if j < rest.len() {
                assert(all[j] == rest[j]);
            } else {
                if let ExitNodeView::Machine { hostname, .. } = nodes.last() {
                    assert(all[j] == SubmenuEntryView::Item(item(exit_item_id(hostname), hostname)));
                }
            }
        }
    }
}

/// Every item of a country chooses a node.
proof fn lemma_country_items_ids(nodes: Seq<ExitNodeView>, country: Seq<char>)
    ensures
        forall|k: int|
            0 <= k < country_items(nodes, country).len() ==> exists|h: Seq<char>|
                (#[trigger] country_items(nodes, country)[k]).id == exit_item_id(h),
    decreases nodes.len(),
{
    if nodes.len() > 0 {
        lemma_country_items_ids(nodes.drop_last(), country);
        let rest = country_items(nodes.drop_last(), country);
        let all = country_items(nodes, country);
        assert forall|k: int| 0 <= k < all.len() implies exists|h: Seq<char>|
            (#[trigger] all[k]).id == exit_item_id(h) by {
            if k < rest.len() {
                assert(all[k] == rest[k]);
            } else {
                if let ExitNodeView::VPN { hostname, .. } = nodes.last() {
                    assert(all[k].id == exit_item_id(hostname));
                }
            }
        }
    }
}

/// A click on the item answers.
pub open spec fn item_answers(i: ItemView) -> bool {
    message_for(i.id) is Some
}

/// Every item of a submenu entry answers a click.
pub open spec fn sub_entry_answers(e: SubmenuEntryView) -> bool {
    match e {
        SubmenuEntryView::Item(i) => item_answers(i),
        SubmenuEntryView::Submenu { items, .. } => forall|k: int|
            0 <= k < items.len() ==> item_answers(#[trigger] items[k]),
    }
}

/// Every item of a menu entry answers a click.
pub open spec fn entry_answers(e: EntryView) -> bool {
    match e {
        EntryView::Item(i) => item_answers(i),
        EntryView::Separator => true,
        EntryView::Submenu { entries, .. } => forall|j: int|
            0 <= j < entries.len() ==> sub_entry_answers(#[trigger] entries[j]),
    }
}

/// Every item of the tray menu, in the menu or in one of its submenus,
/// answers a click with a message.
pub proof fn lemma_every_menu_item_answers(
    is_enabled: bool,
    ms: Seq<MachineView>,
    nodes: Seq<ExitNodeView>,
)
    ensures
        forall|i: int|
            0 <= i < menu_view(is_enabled, ms, nodes).len() ==> entry_answers(
                #[trigger] menu_view(is_enabled, ms, nodes)[i],
            ),
{
    let menu = menu_view(is_enabled, ms, nodes);
    lemma_control_item_clicks(is_enabled);
    lemma_machine_exit_entries_ids(nodes);
    assert forall|i: int| 0 <= i < menu.len() implies entry_answers(#[trigger] menu[i]) by {
        match menu[i] {
            EntryView::Item(it) => {
                if starts_with(it.id, COPY_PREFIX@) || it.id == TOGGLE_ID@ || it.id == REFRESH_ID@
                    || it.id == QUIT_ID@ || it.id == DESELECT_EXIT_NODE_ID@ {
                } else {
                    // Only the machine items are left.
                    let k = choose|k: int|
                        0 <= k < ms.len() && machine_entries(ms)[k] == menu[i];
                    lemma_copy_id_answers(ms[k].ip);
                }
            },
            EntryView::Separator => {},
            EntryView::Submenu { entries, .. } => {
                assert forall|j: int| 0 <= j < entries.len() implies sub_entry_answers(
                    #[trigger] entries[j],
                ) by {
                    if entries == machine_exit_entries(nodes) {
                        let h = choose|h: Seq<char>|
                            machine_exit_entries(nodes)[j] == SubmenuEntryView::Item(
                                item(exit_item_id(h), h),
                            );
                        lemma_set_id_answers(h);
                    } else {
                        assert(entries == vpn_entries(nodes));
                        let c = sorted_countries(nodes)[j];
                        lemma_country_items_ids(nodes, c);
                        let items = country_items(nodes, c);
                        assert forall|k: int| 0 <= k < items.len() implies item_answers(
                            #[trigger] items[k],
                        ) by {
                            let h = choose|h: Seq<char>| items[k].id == exit_item_id(h);
                            lemma_set_id_answers(h);
                        }
                    }
                }
            },
        }
    }
}

// ---------------------------------------------------------------------------
// Laws of the menu's content
// ---------------------------------------------------------------------------

/// Some machine of the list, or some VPN node, is the current exit node.
pub open spec fn exit_node_in_use(ms: Seq<MachineView>, nodes: Seq<ExitNodeView>) -> bool {
    ||| exists|i: int| 0 <= i < ms.len() && (#[trigger] ms[i]).is_exit_node
    ||| exists|i: int|
        0 <= i < nodes.len() && (#[trigger] nodes[i] matches ExitNodeView::VPN {
            is_exit_node: true,
            ..
        })
}

/// The "Deselect Exit Node" item.
pub open spec fn deselect_item() -> EntryView {
    EntryView::Item(ItemView { id: "deselect_exit_node"@, text: "Deselect Exit Node"@ })
}

/// While Tailscale runs, the menu holds the "Deselect Exit Node" item,
/// followed by a separator, right after the toggle and refresh items and
/// their separator, exactly when some machine of the list or some VPN node
/// is the current exit node; otherwise the menu holds no such item.
pub proof fn lemma_deselect_item_shown(ms: Seq<MachineView>, nodes: Seq<ExitNodeView>)
    ensures
        exit_node_in_use(ms, nodes) ==> menu_view(true, ms, nodes)[3] == deselect_item()
            && menu_view(true, ms, nodes)[4] == EntryView::Separator,
        !exit_node_in_use(ms, nodes) ==> forall|i: int|
            0 <= i < menu_view(true, ms, nodes).len() ==> #[trigger] menu_view(true, ms, nodes)[i]
                != deselect_item(),
{
    reveal_strlit("deselect_exit_node");
    let menu = menu_view(true, ms, nodes);
    let (t, r, q) = control_items(true);
    let head = seq![EntryView::Item(t), EntryView::Item(r), EntryView::Separator];
    let d = deselect_entries(ms, nodes);
    let me = machine_entries(ms);
    let x = exit_node_menus(nodes);
    assert(menu == head + d + me + x + seq![EntryView::Separator, EntryView::Item(q)]);
    if exit_node_in_use(ms, nodes) {
        assert(some_exit_node_active(ms, nodes)) by {
            if exists|i: int| 0 <= i < ms.len() && (#[trigger] ms[i]).is_exit_node {
            } else {
                let i = choose|i: int|
                    0 <= i < nodes.len() && (#[trigger] nodes[i] matches ExitNodeView::VPN {
                        is_exit_node: true,
                        ..
                    });
                assert(nodes[i] matches ExitNodeView::VPN { is_exit_node, .. } && is_exit_node);
            }
        }
        assert(menu[3] == d[0]);
        assert(menu[4] == d[1]);
    } else {
        assert(!some_exit_node_active(ms, nodes)) by {
            if exists|i: int| 0 <= i < ms.len() && (#[trigger] ms[i]).is_exit_node {
            } else if exists|i: int|
                0 <= i < nodes.len() && (#[trigger] nodes[i] matches ExitNodeView::VPN {
                    is_exit_node,
                    ..
                } && is_exit_node) {
                let i = choose|i: int|
                    0 <= i < nodes.len() && (#[trigger] nodes[i] matches ExitNodeView::VPN {
                        is_exit_node,
                        ..
                    } && is_exit_node);
                assert(nodes[i] matches ExitNodeView::VPN { is_exit_node: true, .. });
            }
        }
        assert(d =~= seq![]);
        reveal_strlit("toggle");
        reveal_strlit("refresh");
        reveal_strlit("quit");
        assert forall|i: int| 0 <= i < menu.len() implies #[trigger] menu[i] != deselect_item() by {
            if 3 <= i < 3 + me.len() {
                let m = ms[i - 3];
                assert(menu[i] == me[i - 3]);
                reveal_strlit("copy-");
                if menu[i] == deselect_item() {
                    assert((COPY_PREFIX@ + m.ip)[0] == 'c');
                    assert(deselect_item()->Item_0.id[0] == 'd');
                }
            } else if i < 3 {
                assert(TOGGLE_ID@.len() == 6 && REFRESH_ID@.len() == 7);
            } else if i == menu.len() - 1 {
                assert(QUIT_ID@.len() == 4);
            }
        }
    }
}

/// `it` stands in the entries of a submenu: as an entry of its own, or in
/// one of its nested submenus.
pub open spec fn holds_item(entries: Seq<SubmenuEntryView>, it: ItemView) -> bool {
    exists|j: int|
        0 <= j < entries.len() && (#[trigger] entries[j] == SubmenuEntryView::Item(it) || (
        entries[j] matches SubmenuEntryView::Submenu { items, .. } && items.contains(it)))
}

/// The items of a country hold the item of each VPN node of that country.
proof fn lemma_country_items_complete(nodes: Seq<ExitNodeView>, country: Seq<char>)
    ensures
        forall|i: int|
            0 <= i < nodes.len() && (#[trigger] nodes[i] matches ExitNodeView::VPN { country: c, .. }
                && c == country) ==> country_items(nodes, country).contains(
                match nodes[i] {
                    ExitNodeView::VPN { hostname, country, city, is_exit_node } => vpn_item(
                        hostname,
                        country,
                        city,
                        is_exit_node,
                    ),
                    ExitNodeView::Machine { .. } => item(seq![], seq![]),
                },
            ),
    decreases nodes.len(),
{
    if nodes.len() > 0 {
        let init = nodes.drop_last();
        lemma_country_items_complete(init, country);
        let rest = country_items(init, country);
        let all = country_items(nodes, country);
        assert forall|i: int|
            0 <= i < nodes.len() && (#[trigger] nodes[i] matches ExitNodeView::VPN { country: c, .. }
                && c == country) implies all.contains(
            match nodes[i] {
                ExitNodeView::VPN { hostname, country, city, is_exit_node } => vpn_item(
                    hostname,
                    country,
                    city,
                    is_exit_node,
                ),
                ExitNodeView::Machine { .. } => item(seq![], seq![]),
            },
        ) by {
            if i < nodes.len() - 1 {
                assert(init[i] == nodes[i]);
                let x = choose|x: int|
                    0 <= x < rest.len() && rest[x] == (match nodes[i] {
                        ExitNodeView::VPN { hostname, country, city, is_exit_node } => vpn_item(
                            hostname,
                            country,
                            city,
                            is_exit_node,
                        ),
                        ExitNodeView::Machine { .. } => item(seq![], seq![]),
                    });
                assert(all[x] == rest[x]);
            } else {
                assert(nodes.last() == nodes[i]);
                assert(all[all.len() - 1] == (match nodes[i] {
                    ExitNodeView::VPN { hostname, country, city, is_exit_node } => vpn_item(
                        hostname,
                        country,
                        city,
                        is_exit_node,
                    ),
                    ExitNodeView::Machine { .. } => item(seq![], seq![]),
                }));
            }
        }
    }
}

/// While Tailscale runs and there are exit nodes, the third entry from the
/// end of the menu is the "VPN Exit Nodes" submenu, and it holds, on its own
/// or in its country's submenu, the item of every VPN node: it chooses the
/// node by its host name, and its text is the country, " - " and the city,
/// after "🔽 " when the node is the current exit node.
pub proof fn lemma_vpn_menu_holds_every_node(ms: Seq<MachineView>, nodes: Seq<ExitNodeView>)
    requires
        nodes.len() > 0,
    ensures
        menu_view(true, ms, nodes)[menu_view(true, ms, nodes).len() - 3] matches EntryView::Submenu {
            text,
            entries,
        } && text == "VPN Exit Nodes"@ && forall|i: int|
            0 <= i < nodes.len() ==> (#[trigger] nodes[i] matches ExitNodeView::VPN {
                hostname,
                country,
                city,
                is_exit_node,
            } ==> holds_item(
                entries,
                ItemView {
                    id: "set-exit-node-"@ + hostname,
                    text: (if is_exit_node {
                        "🔽 "@
                    } else {
                        ""@
                    }) + country + " - "@ + city,
                },
            )),
{
    let menu = menu_view(true, ms, nodes);
    let (t, r, q) = control_items(true);
    let head = seq![EntryView::Item(t), EntryView::Item(r), EntryView::Separator];
    let x = exit_node_menus(nodes);
    assert(menu == head + deselect_entries(ms, nodes) + machine_entries(ms) + x + seq![
        EntryView::Separator,
        EntryView::Item(q),
    ]);
    assert(menu[menu.len() - 3] == x[2]);
    let entries = vpn_entries(nodes);
    lemma_vpn_countries_sorted(nodes);
    let cs = sorted_countries(nodes);
    assert forall|i: int|
        0 <= i < nodes.len() && (#[trigger] nodes[i] matches ExitNodeView::VPN { .. }) implies (
    match nodes[i] {
        ExitNodeView::VPN { hostname, country, city, is_exit_node } => holds_item(
            entries,
            ItemView {
                id: "set-exit-node-"@ + hostname,
                text: (if is_exit_node {
                    "🔽 "@
                } else {
                    ""@
                }) + country + " - "@ + city,
            },
        ),
        ExitNodeView::Machine { .. } => true,
    }) by {
        if let ExitNodeView::VPN { hostname, country, city, is_exit_node } = nodes[i] {
            let it = vpn_item(hostname, country, city, is_exit_node);
            assert(vpn_country(nodes[i]) == Some(country));
            assert(vpn_countries(nodes).contains(country));
            assert(cs.to_set().contains(country));
            let j = choose|j: int| 0 <= j < cs.len() && cs[j] == country;
            lemma_country_items_complete(nodes, country);
            let items = country_items(nodes, country);
            assert(items.contains(it));
            assert(entries[j] == country_entry(nodes, country));
            if items.len() == 1 {
                let k = choose|k: int| 0 <= k < items.len() && items[k] == it;
                assert(entries[j] == SubmenuEntryView::Item(it));
            }
        }
    }
}

/// The "Exit Node" submenu holds an item for each machine that offers
/// itself as exit node, and nothing else.
proof fn lemma_machine_exit_entries_exact(nodes: Seq<ExitNodeView>)
    ensures
        forall|i: int|
            0 <= i < nodes.len() && (#[trigger] nodes[i] matches ExitNodeView::Machine { .. })
                ==> machine_exit_entries(nodes).contains(
                SubmenuEntryView::Item(
                    ItemView {
                        id: "set-exit-node-"@ + nodes[i]->Machine_hostname,
                        text: nodes[i]->Machine_hostname,
                    },
                ),
            ),
        forall|j: int|
            0 <= j < machine_exit_entries(nodes).len() ==> exists|i: int|
                0 <= i < nodes.len() && (#[trigger] nodes[i] matches ExitNodeView::Machine { .. })
                    && #[trigger] machine_exit_entries(nodes)[j] == SubmenuEntryView::Item(
                    ItemView {
                        id: "set-exit-node-"@ + nodes[i]->Machine_hostname,
                        text: nodes[i]->Machine_hostname,
                    },
                ),
    decreases nodes.len(),
{
    if nodes.len() > 0 {
        let init = nodes.drop_last();
        lemma_machine_exit_entries_exact(init);
        let rest = machine_exit_entries(init);
        let all = machine_exit_entries(nodes);
        let n = nodes.len() - 1;
        assert(nodes.last() == nodes[n]);
        assert forall|i: int|
            0 <= i < nodes.len() && (#[trigger] nodes[i] matches ExitNodeView::Machine { .. }) implies all.contains(
            SubmenuEntryView::Item(
                ItemView {
                    id: "set-exit-node-"@ + nodes[i]->Machine_hostname,
                    text: nodes[i]->Machine_hostname,
                },
            ),
        ) by {
            if i < n {
                assert(init[i] == nodes[i]);
                let x = choose|x: int|
                    0 <= x < rest.len() && rest[x] == SubmenuEntryView::Item(
                        ItemView {
                            id: "set-exit-node-"@ + nodes[i]->Machine_hostname,
                            text: nodes[i]->Machine_hostname,
                        },
                    );
                assert(all[x] == rest[x]);
            } else {
                assert(all[all.len() - 1] == SubmenuEntryView::Item(
                    ItemView {
                        id: "set-exit-node-"@ + nodes[i]->Machine_hostname,
                        text: nodes[i]->Machine_hostname,
                    },
                ));
            }
        }
        assert forall|j: int| 0 <= j < all.len() implies exists|i: int|
            0 <= i < nodes.len() && (#[trigger] nodes[i] matches ExitNodeView::Machine { .. })
                && #[trigger] all[j] == SubmenuEntryView::Item(
                ItemView {
                    id: "set-exit-node-"@ + nodes[i]->Machine_hostname,
                    text: nodes[i]->Machine_hostname,
                },
            ) by {
            if j < rest.len() {
                assert(all[j] == rest[j]);
                let i = choose|i: int|
                    0 <= i < init.len() && (#[trigger] init[i] matches ExitNodeView::Machine { .. })
                        && #[trigger] rest[j] == SubmenuEntryView::Item(
                        ItemView {
                            id: "set-exit-node-"@ + init[i]->Machine_hostname,
                            text: init[i]->Machine_hostname,
                        },
                    );
                assert(init[i] == nodes[i]);
            } else {
                assert(nodes[n] matches ExitNodeView::Machine { .. });
            }
        }
    }
}

/// The layout of the menu. While Tailscale is off: the "Turn Tailscale On"
/// item, the refresh item, a separator and the quit item. While it runs:
/// the "Turn Tailscale Off" item, the refresh item and a separator; the
/// deselect item and a separator while an exit node is in use; the item of
/// each machine in order, which copies its address and shows its mark
/// (🔽 for the current exit node, else 🟢 online or ⚫ offline), its name and
/// its address; when there are exit nodes, a separator, the "Exit Node"
/// submenu with an item for each machine that offers itself (and nothing
/// else) and the "VPN Exit Nodes" submenu; then a separator and the quit item.
pub proof fn lemma_menu_layout(ms: Seq<MachineView>, nodes: Seq<ExitNodeView>)
    ensures
        menu_view(false, ms, nodes) == seq![
            EntryView::Item(ItemView { id: "toggle"@, text: "Turn Tailscale On"@ }),
            EntryView::Item(ItemView { id: "refresh"@, text: "Refresh"@ }),
            EntryView::Separator,
            EntryView::Item(ItemView { id: "quit"@, text: "Quit"@ }),
        ],
        menu_view(true, ms, nodes).len() == 5 + (if exit_node_in_use(ms, nodes) {
            2int
        } else {
            0int
        }) + ms.len() + (if nodes.len() > 0 {
            3int
        } else {
            0int
        }),
        menu_view(true, ms, nodes)[0] == EntryView::Item(
            ItemView { id: "toggle"@, text: "Turn Tailscale Off"@ },
        ),
        menu_view(true, ms, nodes)[1] == EntryView::Item(ItemView { id: "refresh"@, text: "Refresh"@ }),
        menu_view(true, ms, nodes)[2] == EntryView::Separator,
        menu_view(true, ms, nodes)[menu_view(true, ms, nodes).len() - 2] == EntryView::Separator,
        menu_view(true, ms, nodes)[menu_view(true, ms, nodes).len() - 1] == EntryView::Item(
            ItemView { id: "quit"@, text: "Quit"@ },
        ),
        forall|i: int|
            0 <= i < ms.len() ==> menu_view(true, ms, nodes)[3 + (if exit_node_in_use(ms, nodes) {
                2int
            } else {
                0int
            }) + i] == EntryView::Item(
                ItemView {
                    id: "copy-"@ + (#[trigger] ms[i]).ip,
                    text: (if ms[i].is_exit_node {
                        "🔽"@
                    } else if ms[i].online {
                        "🟢"@
                    } else {
                        "⚫"@
                    }) + " "@ + ms[i].hostname + " ("@ + ms[i].ip + ")"@,
                },
            ),
        nodes.len() > 0 ==> menu_view(true, ms, nodes)[3 + (if exit_node_in_use(ms, nodes) {
            2int
        } else {
            0int
        }) + ms.len()] == EntryView::Separator,
        nodes.len() > 0 ==> (menu_view(true, ms, nodes)[menu_view(true, ms, nodes).len() - 4] matches EntryView::Submenu {
            text,
            entries,
        } && text == "Exit Node"@ && (forall|i: int|
            0 <= i < nodes.len() && (#[trigger] nodes[i] matches ExitNodeView::Machine { .. })
                ==> entries.contains(
                SubmenuEntryView::Item(
                    ItemView {
                        id: "set-exit-node-"@ + nodes[i]->Machine_hostname,
                        text: nodes[i]->Machine_hostname,
                    },
                ),
            )) && (forall|j: int|
            0 <= j < entries.len() ==> exists|i: int|
                0 <= i < nodes.len() && (#[trigger] nodes[i] matches ExitNodeView::Machine { .. })
                    && #[trigger] entries[j] == SubmenuEntryView::Item(
                    ItemView {
                        id: "set-exit-node-"@ + nodes[i]->Machine_hostname,
                        text: nodes[i]->Machine_hostname,
                    },
                ))),
{
    let menu = menu_view(true, ms, nodes);
    let (t, r, q) = control_items(true);
    let head = seq![EntryView::Item(t), EntryView::Item(r), EntryView::Separator];
    let d = deselect_entries(ms, nodes);
    let me = machine_entries(ms);
    let x = exit_node_menus(nodes);
    assert(menu == head + d + me + x + seq![EntryView::Separator, EntryView::Item(q)]);
    assert(menu_view(false, ms, nodes) =~= seq![
        EntryView::Item(ItemView { id: "toggle"@, text: "Turn Tailscale On"@ }),
        EntryView::Item(ItemView { id: "refresh"@, text: "Refresh"@ }),
        EntryView::Separator,
        EntryView::Item(ItemView { id: "quit"@, text: "Quit"@ }),
    ]);
    assert(exit_node_in_use(ms, nodes) == some_exit_node_active(ms, nodes)) by {
        if exists|i: int|
            0 <= i < nodes.len() && (#[trigger] nodes[i] matches ExitNodeView::VPN {
                is_exit_node,
                ..
            } && is_exit_node) {
            let i = choose|i: int|
                0 <= i < nodes.len() && (#[trigger] nodes[i] matches ExitNodeView::VPN {
                    is_exit_node,
                    ..
                } && is_exit_node);
            assert(nodes[i] matches ExitNodeView::VPN { is_exit_node: true, .. });
        }
        if exists|i: int|
            0 <= i < nodes.len() && (#[trigger] nodes[i] matches ExitNodeView::VPN {
                is_exit_node: true,
                ..
            }) {
            let i = choose|i: int|
                0 <= i < nodes.len() && (#[trigger] nodes[i] matches ExitNodeView::VPN {
                    is_exit_node: true,
                    ..
                });
            assert(nodes[i] matches ExitNodeView::VPN { is_exit_node, .. } && is_exit_node);
        }
    }
    assert forall|i: int| 0 <= i < ms.len() implies menu[3 + d.len() + i] == EntryView::Item(
        ItemView {
            id: "copy-"@ + (#[trigger] ms[i]).ip,
            text: (if ms[i].is_exit_node {
                "🔽"@
            } else if ms[i].online {
                "🟢"@
            } else {
                "⚫"@
            }) + " "@ + ms[i].hostname + " ("@ + ms[i].ip + ")"@,
        },
    ) by {
        assert(menu[3 + d.len() + i] == me[i]);
    }
    if nodes.len() > 0 {
        assert(menu[(3 + d.len() + me.len()) as int] == x[0]);
        assert(menu[menu.len() - 4] == x[1]);
        lemma_machine_exit_entries_exact(nodes);
    }
}

/// What the tray does in answer to each message: a click that changes
/// Tailscale (toggle, choosing or deselecting an exit node) runs the change
/// and then rebuilds the menu; a refresh only rebuilds it; a copy only puts
/// the address on the clipboard; quit only quits. Choosing an exit node
/// runs `tailscale set --exit-node=<name>`, deselecting runs it with the
/// empty name.
pub proof fn lemma_actions_answer_messages(ip: Seq<char>, hostname: Seq<char>)
    ensures
        actions_for_message(MessageView::Refresh) == seq![ActionView::RebuildMenu],
        actions_for_message(MessageView::Toggle) == seq![
            ActionView::ToggleTailscale,
            ActionView::RebuildMenu,
        ],
        actions_for_message(MessageView::CopyIp(ip)) == seq![ActionView::CopyToClipboard(ip)],
        actions_for_message(MessageView::SetExitNode(hostname)) == seq![
            ActionView::RunTailscale(
                InvocationView {
                    program: "tailscale"@,
                    args: seq!["set"@, "--exit-node="@ + hostname],
                },
            ),
            ActionView::RebuildMenu,
        ],
        actions_for_message(MessageView::DeselectExitNode) == seq![
            ActionView::RunTailscale(
                InvocationView { program: "tailscale"@, args: seq!["set"@, "--exit-node="@] },
            ),
            ActionView::RebuildMenu,
        ],
        actions_for_message(MessageView::Quit) == seq![ActionView::Quit],
{
    reveal_strlit("");
    assert("--exit-node="@ + ""@ =~= "--exit-node="@);
}

/// The item of an exit node, for a VPN node (none for a machine).
pub open spec fn node_item(e: ExitNodeView) -> ItemView {
    match e {
        ExitNodeView::VPN { hostname, country, city, is_exit_node } => ItemView {
            id: "set-exit-node-"@ + hostname,
            text: (if is_exit_node {
                "🔽 "@
            } else {
                ""@
            }) + country + " - "@ + city,
        },
        ExitNodeView::Machine { .. } => ItemView { id: seq![], text: seq![] },
    }
}

/// The node is a VPN node of this country.
pub open spec fn in_country(e: ExitNodeView, country: Seq<char>) -> bool {
    e matches ExitNodeView::VPN { country: c, .. } && c == country
}

/// Every item of a country is the item of one of its VPN nodes.
proof fn lemma_country_items_sources(nodes: Seq<ExitNodeView>, country: Seq<char>)
    ensures
        forall|x: int|
            0 <= x < country_items(nodes, country).len() ==> exists|k: int|
                0 <= k < nodes.len() && in_country(nodes[k], country) && #[trigger] country_items(
                    nodes,
                    country,
                )[x] == node_item(#[trigger] nodes[k]),
    decreases nodes.len(),
{
    if nodes.len() > 0 {
        let init = nodes.drop_last();
        lemma_country_items_sources(init, country);
        let rest = country_items(init, country);
        let all = country_items(nodes, country);
        let n = nodes.len() - 1;
        assert(nodes.last() == nodes[n]);
        assert forall|x: int| 0 <= x < all.len() implies exists|k: int|
            0 <= k < nodes.len() && in_country(nodes[k], country) && #[trigger] all[x] == node_item(
                #[trigger] nodes[k],
            ) by {
            if x < rest.len() {
                assert(all[x] == rest[x]);
                let k = choose|k: int|
                    0 <= k < init.len() && in_country(init[k], country) && rest[x] == node_item(
                        init[k],
                    );
                assert(init[k] == nodes[k]);
            } else {
                assert(in_country(nodes[n], country) && all[x] == node_item(nodes[n]));
            }
        }
    }
}

/// Every VPN node of a country has its item among the country's items.
proof fn lemma_country_items_has(nodes: Seq<ExitNodeView>, country: Seq<char>, i: int)
    requires
        0 <= i < nodes.len(),
        in_country(nodes[i], country),
    ensures
        country_items(nodes, country).contains(node_item(nodes[i])),
{
    lemma_country_items_complete(nodes, country);
}

/// With no other VPN node in the country than `i`, the country has one item.
proof fn lemma_country_items_single(nodes: Seq<ExitNodeView>, country: Seq<char>, i: int)
    requires
        0 <= i <= nodes.len(),
        forall|k: int| 0 <= k < nodes.len() && k != i ==> !in_country(#[trigger] nodes[k], country),
    ensures
        country_items(nodes, country).len() <= 1,
        i == nodes.len() ==> country_items(nodes, country).len() == 0,
    decreases nodes.len(),
{
    if nodes.len() > 0 {
        let init = nodes.drop_last();
        let n = nodes.len() - 1;
        assert(nodes.last() == nodes[n]);
        assert forall|k: int| 0 <= k < init.len() && k != i implies !in_country(#[trigger] init[k], country) by {
            assert(init[k] == nodes[k]);
        }
        if i == n {
            lemma_country_items_single(init, country, init.len() as int);
        } else {
            lemma_country_items_single(init, country, if i < n { i } else { init.len() as int });
        }
    }
}

/// With two VPN nodes in the country, the country has two items or more.
proof fn lemma_country_items_pair(nodes: Seq<ExitNodeView>, country: Seq<char>, i: int, j: int)
    requires
        0 <= i < j < nodes.len(),
        in_country(nodes[i], country),
        in_country(nodes[j], country),
    ensures
        country_items(nodes, country).len() >= 2,
    decreases nodes.len(),
{
    let init = nodes.drop_last();
    let n = nodes.len() - 1;
    assert(nodes.last() == nodes[n]);
    assert(init[i] == nodes[i]);
    if j == n {
        lemma_country_items_has(init, country, i);
    } else {
        assert(init[j] == nodes[j]);
        lemma_country_items_pair(init, country, i, j);
    }
}

/// Whether the text of the item of some VPN node of the country starts
/// with "🔽 ".
pub open spec fn country_marked(nodes: Seq<ExitNodeView>, country: Seq<char>) -> bool {
    exists|k: int|
        0 <= k < nodes.len() && in_country(#[trigger] nodes[k], country) && starts_with(
            node_item(nodes[k]).text,
            "🔽 "@,
        )
}

/// The shape of the entry of the country of the VPN node `i`.
proof fn lemma_country_entry_shape(nodes: Seq<ExitNodeView>, i: int)
    requires
        0 <= i < nodes.len(),
        (nodes[i] is VPN),
    ensures
        (forall|k: int|
            0 <= k < nodes.len() && k != i ==> !in_country(#[trigger] nodes[k], nodes[i]->VPN_country))
            ==> country_entry(nodes, nodes[i]->VPN_country) == SubmenuEntryView::Item(
            node_item(nodes[i]),
        ),
        (exists|k: int|
            0 <= k < nodes.len() && k != i && in_country(#[trigger] nodes[k], nodes[i]->VPN_country))
            ==> country_entry(nodes, nodes[i]->VPN_country) == (SubmenuEntryView::Submenu {
            text: if country_marked(nodes, nodes[i]->VPN_country) {
                "🔽 "@ + nodes[i]->VPN_country
            } else {
                nodes[i]->VPN_country
            },
            items: country_items(nodes, nodes[i]->VPN_country),
        }),
        country_items(nodes, nodes[i]->VPN_country).contains(node_item(nodes[i])),
{
    let c = nodes[i]->VPN_country;
    let items = country_items(nodes, c);
    assert(in_country(nodes[i], c));
    lemma_country_items_has(nodes, c, i);
    if forall|k: int| 0 <= k < nodes.len() && k != i ==> !in_country(#[trigger] nodes[k], c) {
        lemma_country_items_single(nodes, c, i);
        let y = choose|y: int| 0 <= y < items.len() && items[y] == node_item(nodes[i]);
        assert(items[0] == node_item(nodes[i]));
    }
    if exists|k: int| 0 <= k < nodes.len() && k != i && in_country(#[trigger] nodes[k], c) {
        let k = choose|k: int| 0 <= k < nodes.len() && k != i && in_country(#[trigger] nodes[k], c);
        if i < k {
            lemma_country_items_pair(nodes, c, i, k);
        } else {
            lemma_country_items_pair(nodes, c, k, i);
        }
        reveal_strlit("🔽 ");
        assert(ACTIVE_PREFIX@ == "🔽 "@);
        assert(marks_active(items) == country_marked(nodes, c)) by {
            lemma_country_items_sources(nodes, c);
            if marks_active(items) {
                let y = choose|y: int|
                    0 <= y < items.len() && starts_with(#[trigger] items[y].text, ACTIVE_PREFIX@);
                let k = choose|k: int|
                    0 <= k < nodes.len() && in_country(nodes[k], c) && #[trigger] items[y]
                        == node_item(#[trigger] nodes[k]);
                assert(in_country(nodes[k], c) && starts_with(node_item(nodes[k]).text, "🔽 "@));
            }
            if country_marked(nodes, c) {
                let k = choose|k: int|
                    0 <= k < nodes.len() && in_country(#[trigger] nodes[k], c) && starts_with(
                        node_item(nodes[k]).text,
                        "🔽 "@,
                    );
                lemma_country_items_has(nodes, c, k);
                let y = choose|y: int| 0 <= y < items.len() && items[y] == node_item(nodes[k]);
                assert(starts_with(items[y].text, ACTIVE_PREFIX@));
            }
        }
    }
}

/// In the "VPN Exit Nodes" submenu, a VPN node that is alone in its country
/// stands as its own item; one that shares its country with another VPN
/// node stands in a submenu of the country, which is named after the
/// country, after "🔽 " exactly when the text of the item of some VPN node
/// of the country starts with "🔽 ".
pub proof fn lemma_vpn_menu_groups_by_country(
    ms: Seq<MachineView>,
    nodes: Seq<ExitNodeView>,
    i: int,
)
    requires
        0 <= i < nodes.len(),
        (nodes[i] is VPN),
    ensures
        (menu_view(true, ms, nodes)[menu_view(true, ms, nodes).len() - 3] is Submenu),
        (forall|k: int|
            0 <= k < nodes.len() && k != i ==> !in_country(#[trigger] nodes[k], nodes[i]->VPN_country))
            ==> menu_view(true, ms, nodes)[menu_view(
            true,
            ms,
            nodes,
        ).len() - 3]->Submenu_entries.contains(SubmenuEntryView::Item(node_item(nodes[i]))),
        (exists|k: int|
            0 <= k < nodes.len() && k != i && in_country(#[trigger] nodes[k], nodes[i]->VPN_country))
            ==> exists|j: int|
            0 <= j < menu_view(true, ms, nodes)[menu_view(true, ms, nodes).len()
                - 3]->Submenu_entries.len() && (#[trigger] menu_view(true, ms, nodes)[menu_view(
                true,
                ms,
                nodes,
            ).len() - 3]->Submenu_entries[j] matches SubmenuEntryView::Submenu {
                text,
                items,
            } && items.contains(node_item(nodes[i])) && text == (if country_marked(
                nodes,
                nodes[i]->VPN_country,
            ) {
                "🔽 "@ + nodes[i]->VPN_country
            } else {
                nodes[i]->VPN_country
            })),
{
    let menu = menu_view(true, ms, nodes);
    let (t, r, q) = control_items(true);
    let head = seq![EntryView::Item(t), EntryView::Item(r), EntryView::Separator];
    let x = exit_node_menus(nodes);
    assert(menu == head + deselect_entries(ms, nodes) + machine_entries(ms) + x + seq![
        EntryView::Separator,
        EntryView::Item(q),
    ]);
    assert(menu[menu.len() - 3] == x[2]);
    let entries = vpn_entries(nodes);
    let c = nodes[i]->VPN_country;
    let j = choose|j: int| 0 <= j < sorted_countries(nodes).len() && sorted_countries(nodes)[j] == c;
    assert(0 <= j < entries.len() && entries[j] == country_entry(nodes, c)) by {
        lemma_vpn_countries_sorted(nodes);
        assert(vpn_country(nodes[i]) == Some(c));
        assert(vpn_countries(nodes).contains(c));
        assert(sorted_countries(nodes).to_set().contains(c));
    }
    lemma_country_entry_shape(nodes, i);
    if forall|k: int| 0 <= k < nodes.len() && k != i ==> !in_country(#[trigger] nodes[k], c) {
        assert(entries[j] == SubmenuEntryView::Item(node_item(nodes[i])));
        assert(entries.contains(SubmenuEntryView::Item(node_item(nodes[i]))));
    }
    if exists|k: int| 0 <= k < nodes.len() && k != i && in_country(#[trigger] nodes[k], c) {
        let items = country_items(nodes, c);
        assert(entries[j] matches SubmenuEntryView::Submenu { text, items: its } && its.contains(
            node_item(nodes[i]),
        ) && text == (if country_marked(nodes, c) {
            "🔽 "@ + c
        } else {
            c
        }));
        assert(menu[menu.len() - 3] == EntryView::Submenu { text: "VPN Exit Nodes"@, entries });
        assert(menu_view(true, ms, nodes)[menu_view(true, ms, nodes).len() - 3]->Submenu_entries[j]
            == entries[j]);
        assert(exists|j2: int|
            0 <= j2 < entries.len() && (#[trigger] entries[j2] matches SubmenuEntryView::Submenu {
                text,
                items,
            } && items.contains(node_item(nodes[i])) && text == (if country_marked(nodes, c) {
                "🔽 "@ + c
            } else {
                c
            })));
    }
    assert(menu[menu.len() - 3] == EntryView::Submenu { text: "VPN Exit Nodes"@, entries });
}

// ---------------------------------------------------------------------------
// Executable code
// ---------------------------------------------------------------------------

fn new_item(id: &str, text: &str) -> (i: MenuItemModel)
    ensures
        i@ == item(id@, text@),
{
    MenuItemModel { id: String::from_str(id), text: String::from_str(text) }
}

/// The toggle, refresh and quit items.
pub fn build_control_items(is_enabled: bool) -> (r: (MenuItemModel, MenuItemModel, MenuItemModel))
    ensures
        (r.0@, r.1@, r.2@) == control_items(is_enabled),
{
    let toggle_text = if is_enabled {
        "Turn Tailscale Off"
    } else {
        "Turn Tailscale On"
    };
    let toggle_item = new_item(TOGGLE_ID, toggle_text);
    let refresh_item = new_item(REFRESH_ID, "Refresh");
    let quit_item = new_item(QUIT_ID, "Quit");
    (toggle_item, refresh_item, quit_item)
}

/// The ids of the toggle, refresh and quit items.
pub fn get_menu_item_ids() -> (r: (String, String, String))
    ensures
        r.0@ == TOGGLE_ID@,
        r.1@ == REFRESH_ID@,
        r.2@ == QUIT_ID@,
{
    let (toggle, refresh, quit) = build_control_items(true);
    (toggle.id, refresh.id, quit.id)
}

/// What a click on the item with this id asks for: one of the control
/// items, copying the address in a `copy-` id, or choosing the exit node of
/// a `set-exit-node-` id; the prefix is cut out wherever it occurs.
pub fn message_for_event(id: &str) -> (m: Option<AppMessage>)
    ensures
        opt_message_view(m) == message_for(id@),
{
    proof {
        reveal_strlit("copy-");
        reveal_strlit("set-exit-node-");
    }
    let (toggle_id, refresh_id, quit_id) = get_menu_item_ids();
    if eq_str(id, toggle_id.as_str()) {
        Some(AppMessage::Toggle)
    } else if eq_str(id, refresh_id.as_str()) {
        Some(AppMessage::Refresh)
    } else if eq_str(id, DESELECT_EXIT_NODE_ID) {
        Some(AppMessage::DeselectExitNode)
    } else if eq_str(id, quit_id.as_str()) {
        Some(AppMessage::Quit)
    } else if starts_with_str(id, COPY_PREFIX) {
        Some(AppMessage::CopyIp(replace_all_str(id, COPY_PREFIX, "")))
    } else if starts_with_str(id, SET_EXIT_NODE_PREFIX) {
        Some(AppMessage::SetExitNode(replace_all_str(id, SET_EXIT_NODE_PREFIX, "")))
    } else {
        None
    }
}

/// What the tray does in answer to a message: a refresh rebuilds the menu;
/// a toggle, or a change of exit node, runs the Tailscale command and then
/// rebuilds the menu; a copy puts the address on the clipboard.
pub fn actions_for(msg: AppMessage) -> (r: Vec<TrayAction>)
    ensures
        actions_view(r@) == actions_for_message(msg@),
{
    let mut r: Vec<TrayAction> = Vec::new();
    match msg {
        AppMessage::Refresh => {
            r.push(TrayAction::RebuildMenu);
        },
        AppMessage::Toggle => {
            r.push(TrayAction::ToggleTailscale);
            r.push(TrayAction::RebuildMenu);
        },
        AppMessage::CopyIp(ip) => {
            r.push(TrayAction::CopyToClipboard(ip));
        },
        AppMessage::DeselectExitNode => {
            r.push(TrayAction::RunTailscale(Tailscale::deselect_exit_node()));
            r.push(TrayAction::RebuildMenu);
        },
        AppMessage::SetExitNode(hostname) => {
            r.push(TrayAction::RunTailscale(Tailscale::set_exit_node(hostname.as_str())));
            r.push(TrayAction::RebuildMenu);
        },
        AppMessage::Quit => {
            r.push(TrayAction::Quit);
        },
    }
    assert(actions_view(r@) =~= actions_for_message(msg@));
    r
}

fn machine_item_exec(m: &MachineData) -> (i: MenuItemModel)
    ensures
        i@ == machine_item(m@),
{
    let icon = if m.is_exit_node {
        ACTIVE_ICON
    } else if m.online {
        ONLINE_ICON
    } else {
        OFFLINE_ICON
    };
    let mut text = concat_str(icon, " ");
    text.append(m.hostname.as_str());
    text.append(" (");
    text.append(m.ip.as_str());
    text.append(")");
    let id = concat_str(COPY_PREFIX, m.ip.as_str());
    MenuItemModel { id, text }
}

fn some_exit_node_active_exec(machines: &Vec<MachineData>, nodes: &Vec<ExitNode>) -> (b: bool)
    ensures
        b == some_exit_node_active(machines_view(machines@), exit_nodes_view(nodes@)),
{
    let ghost ms = machines_view(machines@);
    let ghost ns = exit_nodes_view(nodes@);
    let mut i: usize = 0;
    while i < machines.len()
        invariant
            i <= machines@.len(),
            ms == machines_view(machines@),
            forall|j: int| 0 <= j < i ==> !(#[trigger] ms[j]).is_exit_node,
        decreases machines@.len() - i,
    {
        if machines[i].is_exit_node {
            assert(ms[i as int].is_exit_node);
            return true;
        }
        i = i + 1;
    }
    let mut k: usize = 0;
    while k < nodes.len()
        invariant
            k <= nodes@.len(),
            ns == exit_nodes_view(nodes@),
            forall|j: int|
                0 <= j < k ==> !(#[trigger] ns[j] matches ExitNodeView::VPN { is_exit_node, .. }
                    && is_exit_node),
        decreases nodes@.len() - k,
    {
        match &nodes[k] {
            ExitNode::VPN(v) => {
                if v.is_exit_node {
                    assert(ns[k as int] matches ExitNodeView::VPN { is_exit_node, .. }
                        && is_exit_node);
                    return true;
                }
            },
            ExitNode::Machine(_) => {},
        }
        k = k + 1;
    }
    false
}

fn machine_exit_entries_exec(nodes: &Vec<ExitNode>) -> (r: Vec<SubmenuEntry>)
    ensures
        sub_entries_view(r@) == machine_exit_entries(exit_nodes_view(nodes@)),
{
    let ghost ns = exit_nodes_view(nodes@);
    let mut r: Vec<SubmenuEntry> = Vec::new();
    let mut i: usize = 0;
    assert(ns.take(0) =~= seq![]);
    while i < nodes.len()
        invariant
            i <= nodes@.len(),
            ns == exit_nodes_view(nodes@),
            sub_entries_view(r@) == machine_exit_entries(ns.take(i as int)),
        decreases nodes@.len() - i,
    {
        assert(ns.take(i + 1).drop_last() =~= ns.take(i as int));
        assert(ns.take(i + 1).last() == nodes@[i as int]@);
        let ghost before = r@;
        match &nodes[i] {
            ExitNode::Machine(m) => {
                let id = concat_str(SET_EXIT_NODE_PREFIX, m.hostname.as_str());
                let text = m.hostname.clone();
                r.push(SubmenuEntry::Item(MenuItemModel { id, text }));
                assert(sub_entries_view(r@) =~= sub_entries_view(before).push(r@.last()@));
            },
            ExitNode::VPN(_) => {},
        }
        i = i + 1;
    }
    assert(ns.take(i as int) =~= ns);
    r
}

/// Puts `c` into its place in the sorted `cs`, unless it is there already.
fn insert_country(cs: &mut Vec<String>, c: &String)
    ensures
        crate::command::strings_view(final(cs)@) == insert_sorted(
            crate::command::strings_view(old(cs)@),
            c@,
        ),
{
    let ghost s0 = crate::command::strings_view(cs@);
    let mut j: usize = 0;
    assert(s0.skip(0) =~= s0);
    assert(s0.take(0) + s0 =~= s0);
    while j < cs.len()
        invariant
            j <= cs@.len(),
            s0 == crate::command::strings_view(cs@),
            s0 == crate::command::strings_view(old(cs)@),
            insert_sorted(s0, c@) == s0.take(j as int) + insert_sorted(s0.skip(j as int), c@),
        decreases cs@.len() - j,
    {
        let ghost t = s0.skip(j as int);
        assert(t[0] == cs@[j as int]@);
        if eq_str(cs[j].as_str(), c.as_str()) {
            assert(s0.take(j as int) + t =~= s0);
            return;
        }
        if lex_lt_str(c.as_str(), cs[j].as_str()) {
            cs.insert(j, c.clone());
            assert(crate::command::strings_view(cs@) =~= s0.take(j as int) + (seq![c@] + t));
            return;
        }
        assert(t.drop_first() =~= s0.skip(j + 1));
        assert(s0.take(j + 1) =~= s0.take(j as int) + seq![t[0]]);
        j = j + 1;
    }
    cs.push(c.clone());
    assert(crate::command::strings_view(cs@) =~= s0.take(j as int) + seq![c@]);
}

/// The countries of the VPN nodes, each once, in the order of strings.
fn sorted_countries_exec(nodes: &Vec<ExitNode>) -> (cs: Vec<String>)
    ensures
        crate::command::strings_view(cs@) == sorted_countries(exit_nodes_view(nodes@)),
{
    let ghost ns = exit_nodes_view(nodes@);
    let mut cs: Vec<String> = Vec::new();
    let mut i: usize = 0;
    assert(ns.take(0) =~= seq![]);
    assert(crate::command::strings_view(cs@) =~= seq![]);
    while i < nodes.len()
        invariant
            i <= nodes@.len(),
            ns == exit_nodes_view(nodes@),
            crate::command::strings_view(cs@) == countries_by_insertion(ns.take(i as int)),
        decreases nodes@.len() - i,
    {
        assert(ns.take(i + 1).drop_last() =~= ns.take(i as int));
        assert(ns.take(i + 1).last() == nodes@[i as int]@);
        match &nodes[i] {
            ExitNode::VPN(v) => {
                insert_country(&mut cs, &v.country);
            },
            ExitNode::Machine(_) => {},
        }
        i = i + 1;
    }
    assert(ns.take(i as int) =~= ns);
    proof {
        lemma_vpn_countries_sorted(ns);
    }
    cs
}

fn vpn_item_exec(v: &crate::tailscale::VPNNodeData) -> (i: MenuItemModel)
    ensures
        i@ == vpn_item(v.hostname@, v.country@, v.city@, v.is_exit_node),
{
    let mark = if v.is_exit_node {
        ACTIVE_PREFIX
    } else {
        ""
    };
    let mut text = concat_str(mark, v.country.as_str());
    text.append(" - ");
    text.append(v.city.as_str());
    let id = concat_str(SET_EXIT_NODE_PREFIX, v.hostname.as_str());
    MenuItemModel { id, text }
}

fn country_items_exec(nodes: &Vec<ExitNode>, country: &String) -> (r: Vec<MenuItemModel>)
    ensures
        items_view(r@) == country_items(exit_nodes_view(nodes@), country@),
{
    let ghost ns = exit_nodes_view(nodes@);
    let mut r: Vec<MenuItemModel> = Vec::new();
    let mut i: usize = 0;
    assert(ns.take(0) =~= seq![]);
    while i < nodes.len()
        invariant
            i <= nodes@.len(),
            ns == exit_nodes_view(nodes@),
            items_view(r@) == country_items(ns.take(i as int), country@),
        decreases nodes@.len() - i,
    {
        assert(ns.take(i + 1).drop_last() =~= ns.take(i as int));
        assert(ns.take(i + 1).last() == nodes@[i as int]@);
        let ghost before = r@;
        match &nodes[i] {
            ExitNode::VPN(v) => {
                if v.country == *country {
                    r.push(vpn_item_exec(v));
                    assert(items_view(r@) =~= items_view(before).push(r@.last()@));
                }
            },
            ExitNode::Machine(_) => {},
        }
        i = i + 1;
    }
    assert(ns.take(i as int) =~= ns);
    r
}

fn marks_active_exec(items: &Vec<MenuItemModel>) -> (b: bool)
    ensures
        b == marks_active(items_view(items@)),
{
    let ghost v = items_view(items@);
    let mut i: usize = 0;
    while i < items.len()
        invariant
            i <= items@.len(),
            v == items_view(items@),
            forall|j: int| 0 <= j < i ==> !starts_with(#[trigger] v[j].text, ACTIVE_PREFIX@),
        decreases items@.len() - i,
    {
        if starts_with_str(items[i].text.as_str(), ACTIVE_PREFIX) {
            assert(starts_with(v[i as int].text, ACTIVE_PREFIX@));
            return true;
        }
        i = i + 1;
    }
    false
}

fn country_entry_exec(nodes: &Vec<ExitNode>, country: &String) -> (e: SubmenuEntry)
    ensures
        e@ == country_entry(exit_nodes_view(nodes@), country@),
{
    let mut items = country_items_exec(nodes, country);
    if items.len() == 1 {
        let ghost v = items_view(items@);
        let only = items.remove(0);
        assert(only@ == v[0]);
        SubmenuEntry::Item(only)
    } else {
        let text = if marks_active_exec(&items) {
            concat_str(ACTIVE_PREFIX, country.as_str())
        } else {
            country.clone()
        };
        SubmenuEntry::Submenu { text, items }
    }
}

fn vpn_entries_exec(nodes: &Vec<ExitNode>) -> (r: Vec<SubmenuEntry>)
    ensures
        sub_entries_view(r@) == vpn_entries(exit_nodes_view(nodes@)),
{
    let ghost ns = exit_nodes_view(nodes@);
    let countries = sorted_countries_exec(nodes);
    let ghost cs = crate::command::strings_view(countries@);
    let mut r: Vec<SubmenuEntry> = Vec::new();
    let mut i: usize = 0;
    while i < countries.len()
        invariant
            i <= countries@.len(),
            ns == exit_nodes_view(nodes@),
            cs == crate::command::strings_view(countries@),
            cs == sorted_countries(ns),
            sub_entries_view(r@) == cs.take(i as int).map_values(
                |c: Seq<char>| country_entry(ns, c),
            ),
        decreases countries@.len() - i,
    {
        let ghost before = r@;
        let e = country_entry_exec(nodes, &countries[i]);
        r.push(e);
        assert(sub_entries_view(r@) =~= sub_entries_view(before).push(e@));
        assert(cs.take(i + 1) =~= cs.take(i as int).push(cs[i as int]));
        assert(cs.take(i + 1).map_values(|c: Seq<char>| country_entry(ns, c)) =~= cs.take(
            i as int,
        ).map_values(|c: Seq<char>| country_entry(ns, c)).push(country_entry(ns, cs[i as int])));
        i = i + 1;
    }
    assert(cs.take(i as int) =~= cs);
    r
}

/// Appends an entry, and states what that does to the view.
fn push_entry(v: &mut Vec<MenuEntry>, e: MenuEntry)
    ensures
        entries_view(final(v)@) == entries_view(old(v)@).push(e@),
{
    let ghost before = v@;
    v.push(e);
    assert(entries_view(v@) =~= entries_view(before).push(e@));
}

/// The tray menu for the current state: whether Tailscale runs, the
/// machines of the network and the exit nodes on offer.
///
/// While Tailscale runs, the menu holds the toggle and refresh items, a
/// "Deselect Exit Node" item while some exit node is in use, an item per
/// machine (which copies its address), and, when there are exit nodes, an
/// "Exit Node" submenu of the machines that offer themselves and a "VPN
/// Exit Nodes" submenu with an entry per country, in the order of country
/// names. It always ends with the quit item.
pub fn rebuild_menu(
    is_enabled: bool,
    machines: &Vec<MachineData>,
    exit_nodes: &Vec<ExitNode>,
) -> (menu: Vec<MenuEntry>)
    ensures
        entries_view(menu@) == menu_view(
            is_enabled,
            machines_view(machines@),
            exit_nodes_view(exit_nodes@),
        ),
{
    let ghost ms = machines_view(machines@);
    let ghost ns = exit_nodes_view(exit_nodes@);
    let mut menu: Vec<MenuEntry> = Vec::new();
    let (toggle_item, refresh_item, quit_item) = build_control_items(is_enabled);
    let ghost (t, r, q) = control_items(is_enabled);
    if is_enabled {
        push_entry(&mut menu, MenuEntry::Item(toggle_item));
        push_entry(&mut menu, MenuEntry::Item(refresh_item));
        push_entry(&mut menu, MenuEntry::Separator);
        let ghost head = entries_view(menu@);
        assert(head =~= seq![EntryView::Item(t), EntryView::Item(r), EntryView::Separator]);
        if some_exit_node_active_exec(machines, exit_nodes) {
            push_entry(
                &mut menu,
                MenuEntry::Item(new_item(DESELECT_EXIT_NODE_ID, "Deselect Exit Node")),
            );
            push_entry(&mut menu, MenuEntry::Separator);
        }
        let ghost with_deselect = entries_view(menu@);
        assert(with_deselect =~= head + deselect_entries(ms, ns));
        let mut i: usize = 0;
        while i < machines.len()
            invariant
                i <= machines@.len(),
                ms == machines_view(machines@),
                entries_view(menu@) == with_deselect + machine_entries(ms.take(i as int)),
            decreases machines@.len() - i,
        {
            push_entry(&mut menu, MenuEntry::Item(machine_item_exec(&machines[i])));
            assert(machine_entries(ms.take(i + 1)) =~= machine_entries(ms.take(i as int)).push(
                EntryView::Item(machine_item(ms[i as int])),
            ));
            i = i + 1;
        }
        assert(ms.take(i as int) =~= ms);
        let ghost with_machines = entries_view(menu@);
        if exit_nodes.len() > 0 {
            push_entry(&mut menu, MenuEntry::Separator);
            let exit_menu = MenuEntry::Submenu {
                text: String::from_str("Exit Node"),
                entries: machine_exit_entries_exec(exit_nodes),
            };
            push_entry(&mut menu, exit_menu);
            let vpn_menu = MenuEntry::Submenu {
                text: String::from_str("VPN Exit Nodes"),
                entries: vpn_entries_exec(exit_nodes),
            };
            push_entry(&mut menu, vpn_menu);
        }
        assert(entries_view(menu@) =~= with_machines + exit_node_menus(ns));
    } else {
        push_entry(&mut menu, MenuEntry::Item(toggle_item));
        push_entry(&mut menu, MenuEntry::Item(refresh_item));
    }
    let ghost body = entries_view(menu@);
    push_entry(&mut menu, MenuEntry::Separator);
    push_entry(&mut menu, MenuEntry::Item(quit_item));
    assert(entries_view(menu@) =~= body + seq![EntryView::Separator, EntryView::Item(q)]);
    menu
}

} // verus!
