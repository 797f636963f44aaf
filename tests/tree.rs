use proxy_tree::{
    get_delay_style, Cell, ConvertError, History, Indicator, Latency, NameStyle, Proxies, Proxy,
    ProxyGroup, ProxyGroupFocusStatus, ProxyItem, ProxyTree, ProxyTreeWidget, ProxyType,
};

fn item(name: &str, delay: Option<u64>) -> ProxyItem {
    ProxyItem {
        name: name.to_string(),
        proxy_type: ProxyType::Shadowsocks,
        history: delay.map(|d| History { delay: d }),
        udp: false,
    }
}

fn group(name: &str, members: &[&str], cursor: usize) -> ProxyGroup {
    ProxyGroup {
        name: name.to_string(),
        proxy_type: ProxyType::Selector,
        members: members.iter().map(|m| item(m, Some(10))).collect(),
        current: None,
        cursor,
    }
}

fn tree(groups: Vec<ProxyGroup>) -> ProxyTree {
    ProxyTree { groups, expanded: false, cursor: 0 }
}

fn record(proxy_type: ProxyType, delay: Option<u64>) -> Proxy {
    Proxy {
        proxy_type,
        history: delay.map(|d| vec![History { delay: d }]).unwrap_or_default(),
        udp: true,
        all: None,
        now: None,
    }
}

fn cursors(t: &ProxyTree) -> Vec<(String, usize)> {
    t.groups.iter().map(|g| (g.name.clone(), g.cursor)).collect()
}

#[test]
fn merge_with_itself_changes_nothing() {
    let mut t = tree(vec![group("A", &["a", "b", "c"], 2), group("B", &["x"], 0)]);
    t.cursor = 1;
    let copy = t.clone();
    t.merge(copy);
    assert_eq!(cursors(&t), vec![("A".to_string(), 2), ("B".to_string(), 0)]);
    assert_eq!(t.cursor, 1);
    assert_eq!(t.groups.len(), 2);
}

#[test]
fn merge_keeps_cursor_when_group_grows() {
    let mut t = tree(vec![group("A", &["a", "b", "c"], 2)]);
    t.merge(tree(vec![group("A", &["a", "b", "c", "d"], 0)]));
    assert_eq!(t.groups[0].cursor, 2);
    assert_eq!(t.groups[0].members.len(), 4);
    assert_eq!(t.groups[0].members[3].name, "d");
}

#[test]
fn merge_clamps_cursor_when_group_shrinks() {
    let mut t = tree(vec![group("A", &["a", "b", "c", "d"], 3)]);
    t.merge(tree(vec![group("A", &["a", "b"], 0)]));
    assert_eq!(t.groups[0].cursor, 1);
    assert_eq!(t.groups[0].members.len(), 2);
}

#[test]
fn merge_clamps_cursor_to_zero_when_group_empties() {
    let mut t = tree(vec![group("A", &["a", "b"], 1)]);
    t.merge(tree(vec![group("A", &[], 0)]));
    assert_eq!(t.groups[0].cursor, 0);
}

#[test]
fn merge_appends_new_and_keeps_missing_groups() {
    let mut t = tree(vec![group("A", &["a"], 0), group("C", &["c"], 0)]);
    t.merge(tree(vec![group("A", &["a", "z"], 0), group("B", &["b"], 0)]));
    let names: Vec<String> = t.groups.iter().map(|g| g.name.clone()).collect();
    assert_eq!(names, vec!["A", "C", "B"]);
    assert_eq!(t.groups[1].members[0].name, "c");
    assert_eq!(t.groups[0].members.len(), 2);
}

#[test]
fn merge_leaves_mode_and_tree_cursor() {
    let mut t = tree(vec![group("A", &["a"], 0), group("B", &["b"], 0)]);
    t.cursor = 1;
    t.toggle();
    t.merge(tree(vec![group("B", &["b", "c"], 1)]));
    assert!(t.expanded);
    assert_eq!(t.cursor, 1);
    assert_eq!(t.groups[1].cursor, 0);
}

#[test]
fn toggle_flips_mode() {
    let mut t = tree(vec![]);
    t.toggle();
    assert!(t.expanded);
    t.toggle();
    assert!(!t.expanded);
}

#[test]
fn delay_buckets() {
    assert_eq!(get_delay_style(0), Latency::NoLatency);
    assert_eq!(get_delay_style(1), Latency::Low);
    assert_eq!(get_delay_style(150), Latency::Low);
    assert_eq!(get_delay_style(200), Latency::Low);
    assert_eq!(get_delay_style(201), Latency::Mid);
    assert_eq!(get_delay_style(300), Latency::Mid);
    assert_eq!(get_delay_style(400), Latency::Mid);
    assert_eq!(get_delay_style(401), Latency::High);
    assert_eq!(get_delay_style(500), Latency::High);
}

#[test]
fn latency_cells_in_expanded_rows() {
    let mut g = group("G", &[], 0);
    g.members = vec![
        item("zero", Some(0)),
        item("low", Some(150)),
        item("mid", Some(300)),
        item("high", Some(500)),
        item("none", None),
        ProxyItem { name: "nested".to_string(), proxy_type: ProxyType::URLTest, history: None, udp: false },
    ];
    let rows = g.get_widget(80, ProxyGroupFocusStatus::Expanded);
    let last: Vec<Cell> = rows[1..].iter().map(|r| r[6].clone()).collect();
    assert_eq!(
        last,
        vec![
            Cell::NoLatencySign,
            Cell::Delay(150, Latency::Low),
            Cell::Delay(300, Latency::Mid),
            Cell::Delay(500, Latency::High),
            Cell::NoLatencySign,
            Cell::Blank,
        ]
    );
}

#[test]
fn summary_glyphs() {
    let mut g = group("G", &[], 0);
    g.members = vec![
        item("zero", Some(0)),
        item("low", Some(150)),
        item("none", None),
        ProxyItem { name: "nested".to_string(), proxy_type: ProxyType::Fallback, history: None, udp: false },
    ];
    assert_eq!(
        g.get_summary_widget(),
        vec![
            Cell::Glyph(Latency::NoLatency),
            Cell::Glyph(Latency::Low),
            Cell::Glyph(Latency::NoLatency),
            Cell::NotProxy,
        ]
    );
}

#[test]
fn summary_rows_wrap_by_width() {
    let names = ["a", "b", "c", "d", "e"];
    let g = group("G", &names, 0);
    // (10 - 2 - 2) / 2 = 3 glyphs per row
    let rows = g.get_widget(10, ProxyGroupFocusStatus::Focused);
    assert_eq!(rows.len(), 3);
    assert_eq!(rows[1].len(), 4);
    assert_eq!(rows[2].len(), 3);
    assert_eq!(rows[1][0], Cell::Indicator(Indicator::Focused));
    assert_eq!(rows[0][5], Cell::Count(5));
    // a viewport too narrow for any glyph still places one per row
    let narrow = g.get_widget(2, ProxyGroupFocusStatus::Unfocused);
    assert_eq!(narrow.len(), 6);
    assert_eq!(narrow[1], vec![Cell::Indicator(Indicator::Unfocused), Cell::Glyph(Latency::Low)]);
}

#[test]
fn empty_group_has_only_header() {
    let g = group("G", &[], 0);
    assert_eq!(g.get_widget(80, ProxyGroupFocusStatus::Unfocused).len(), 1);
    assert_eq!(g.get_widget(80, ProxyGroupFocusStatus::Expanded).len(), 1);
}

#[test]
fn collapsed_window_starts_two_before_cursor() {
    let groups: Vec<ProxyGroup> = (0..10).map(|i| group(&format!("g{}", i), &["a"], 0)).collect();
    let mut t = tree(groups);
    t.cursor = 7;
    let rows = ProxyTreeWidget::new(&t).rows(80, 100);
    assert_eq!(rows.len(), 10);
    assert_eq!(rows[0][1], Cell::Name("g5".to_string(), NameStyle::Group));
    assert_eq!(rows[4][0], Cell::Indicator(Indicator::Focused));
    assert_eq!(rows[4][1], Cell::Name("g7".to_string(), NameStyle::Group));
    let short = ProxyTreeWidget::new(&t).rows(80, 3);
    assert_eq!(short.len(), 3);
}

#[test]
fn expanded_window_starts_four_before_cursor() {
    let names = ["m0", "m1", "m2", "m3", "m4", "m5", "m6", "m7"];
    let mut t = tree(vec![group("A", &["a"], 0), group("B", &names, 6), group("C", &["c"], 0)]);
    t.cursor = 1;
    t.toggle();
    let widget = ProxyTreeWidget::new(&t);
    assert!(widget.focused_border());
    let rows = widget.rows(80, 100);
    assert_eq!(rows[0][1], Cell::Name("B".to_string(), NameStyle::Group));
    assert_eq!(rows[0][5], Cell::Position(7, 8));
    assert_eq!(rows[1][2], Cell::Name("m2".to_string(), NameStyle::Plain));
    assert_eq!(rows[5][0], Cell::Indicator(Indicator::ExpandedPointed));
    assert_eq!(rows[5][2], Cell::Name("m6".to_string(), NameStyle::Pointed));
    assert_eq!(rows.len(), 1 + 6 + 2);
    assert_eq!(rows[7][0], Cell::Indicator(Indicator::Unfocused));
}

#[test]
fn stale_group_cursor_is_clamped() {
    let stale = group("A", &["a", "b"], 9);
    let clamped = group("A", &["a", "b"], 1);
    let rows = stale.get_widget(80, ProxyGroupFocusStatus::Expanded);
    assert_eq!(rows, clamped.get_widget(80, ProxyGroupFocusStatus::Expanded));
    assert_eq!(rows.len(), 3);
    assert_eq!(rows[0][5], Cell::Position(2, 2));
    assert_eq!(rows[2][0], Cell::Indicator(Indicator::ExpandedPointed));
    assert_eq!(rows[2][2], Cell::Name("b".to_string(), NameStyle::Pointed));
}

#[test]
fn far_stale_group_cursor_keeps_member_rows() {
    let names = ["m0", "m1", "m2", "m3", "m4", "m5", "m6"];
    let stale = group("A", &names, 20);
    let clamped = group("A", &names, 6);
    let rows = stale.get_widget(80, ProxyGroupFocusStatus::Expanded);
    assert_eq!(rows, clamped.get_widget(80, ProxyGroupFocusStatus::Expanded));
    // window starts at 6 - 4 = 2
    assert_eq!(rows.len(), 1 + 5);
    assert_eq!(rows[1][2], Cell::Name("m2".to_string(), NameStyle::Plain));
}

#[test]
fn empty_group_position_header() {
    let g = group("A", &[], 3);
    let rows = g.get_widget(80, ProxyGroupFocusStatus::Expanded);
    assert_eq!(rows.len(), 1);
    assert_eq!(rows[0][5], Cell::Position(1, 0));
}

#[test]
fn stale_tree_cursor_is_clamped() {
    let mut t = tree(vec![group("A", &["a"], 0), group("B", &["b", "c"], 0)]);
    t.cursor = 5;
    let rows = ProxyTreeWidget::new(&t).rows(80, 10);
    // collapsed: the cursor stands on B, window starts at 0
    assert_eq!(rows.len(), 4);
    assert_eq!(rows[2][0], Cell::Indicator(Indicator::Focused));
    assert_eq!(rows[2][1], Cell::Name("B".to_string(), NameStyle::Group));
    t.toggle();
    let rows = ProxyTreeWidget::new(&t).rows(80, 10);
    // expanded: B alone, with its two members
    assert_eq!(rows.len(), 3);
    assert_eq!(rows[0][1], Cell::Name("B".to_string(), NameStyle::Group));
    assert_eq!(rows[0][5], Cell::Position(1, 2));
}

#[test]
fn end_to_end_scenario() {
    let mut proxy_group = record(ProxyType::Selector, None);
    proxy_group.all = Some(vec!["direct".to_string(), "auto".to_string()]);
    proxy_group.now = Some("auto".to_string());
    let snapshot = Proxies {
        entries: vec![
            ("direct".to_string(), record(ProxyType::Direct, Some(0))),
            ("Proxy".to_string(), proxy_group),
            ("auto".to_string(), record(ProxyType::Shadowsocks, Some(120))),
        ],
    };
    let mut t = ProxyTree::from_proxies(&snapshot).unwrap();
    assert_eq!(t.groups.len(), 1);
    assert_eq!(t.groups[0].current, Some(1));
    assert_eq!(t.groups[0].cursor, 1);

    let rows = ProxyTreeWidget::new(&t).rows(80, 10);
    assert_eq!(
        rows,
        vec![
            vec![
                Cell::Indicator(Indicator::Focused),
                Cell::Name("Proxy".to_string(), NameStyle::Group),
                Cell::Space,
                Cell::Type(ProxyType::Selector),
                Cell::Space,
                Cell::Count(2),
            ],
            vec![
                Cell::Indicator(Indicator::Focused),
                Cell::Glyph(Latency::NoLatency),
                Cell::Glyph(Latency::Low),
            ],
        ]
    );

    t.toggle();
    let rows = ProxyTreeWidget::new(&t).rows(80, 10);
    assert_eq!(rows.len(), 3);
    assert_eq!(rows[0][5], Cell::Position(2, 2));
    assert_eq!(
        rows[1],
        vec![
            Cell::Indicator(Indicator::Expanded),
            Cell::Space,
            Cell::Name("direct".to_string(), NameStyle::Plain),
            Cell::Space,
            Cell::Type(ProxyType::Direct),
            Cell::Space,
            Cell::NoLatencySign,
        ]
    );
    assert_eq!(
        rows[2],
        vec![
            Cell::Indicator(Indicator::ExpandedPointed),
            Cell::Space,
            Cell::Name("auto".to_string(), NameStyle::Current),
            Cell::Space,
            Cell::Type(ProxyType::Shadowsocks),
            Cell::Space,
            Cell::Delay(120, Latency::Low),
        ]
    );
}

#[test]
fn conversion_sorts_groups_by_name() {
    let mut b = record(ProxyType::Selector, None);
    b.all = Some(vec!["x".to_string()]);
    let mut a = record(ProxyType::URLTest, None);
    a.all = Some(vec!["x".to_string()]);
    let snapshot = Proxies {
        entries: vec![
            ("beta".to_string(), b),
            ("alpha".to_string(), a),
            ("x".to_string(), record(ProxyType::Vmess, Some(5))),
        ],
    };
    let t = ProxyTree::from_proxies(&snapshot).unwrap();
    let names: Vec<String> = t.groups.iter().map(|g| g.name.clone()).collect();
    assert_eq!(names, vec!["alpha", "beta"]);
    assert_eq!(t.groups[0].cursor, 0);
    assert_eq!(t.groups[0].current, None);
    assert_eq!(t.groups[0].members[0].history, Some(History { delay: 5 }));
    assert!(!t.expanded);
}

#[test]
fn conversion_rejects_missing_member() {
    let mut g = record(ProxyType::Selector, None);
    g.all = Some(vec!["ghost".to_string()]);
    let snapshot = Proxies { entries: vec![("G".to_string(), g)] };
    assert_eq!(ProxyTree::from_proxies(&snapshot).unwrap_err(), ConvertError::MissingMember);
}

#[test]
fn conversion_rejects_unknown_current() {
    let mut g = record(ProxyType::Selector, None);
    g.all = Some(vec!["x".to_string()]);
    g.now = Some("y".to_string());
    let snapshot = Proxies {
        entries: vec![("G".to_string(), g), ("x".to_string(), record(ProxyType::Direct, None))],
    };
    assert_eq!(ProxyTree::from_proxies(&snapshot).unwrap_err(), ConvertError::UnknownCurrent);
}

#[test]
fn item_from_record_takes_first_sample() {
    let mut p = record(ProxyType::Trojan, Some(42));
    p.history.push(History { delay: 99 });
    let it = ProxyItem::from_record(&"t".to_string(), &p);
    assert_eq!(it.name, "t");
    assert_eq!(it.history, Some(History { delay: 42 }));
    assert!(it.udp);
}

#[test]
fn name_order() {
    assert!(proxy_tree::name_lt(&"a".to_string(), &"b".to_string()));
    assert!(proxy_tree::name_lt(&"ab".to_string(), &"abc".to_string()));
    assert!(!proxy_tree::name_lt(&"b".to_string(), &"a".to_string()));
    assert!(!proxy_tree::name_lt(&"a".to_string(), &"a".to_string()));
    assert!(proxy_tree::name_lt(&"Z".to_string(), &"a".to_string()));
}

#[test]
fn default_group_is_empty_selector() {
    let g = ProxyGroup::default();
    assert!(g.name.is_empty());
    assert_eq!(g.proxy_type, ProxyType::Selector);
    assert!(g.members.is_empty());
    assert_eq!(g.current, None);
    assert_eq!(g.cursor, 0);
}
