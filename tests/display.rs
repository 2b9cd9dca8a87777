use dtchat_predict::display::{
    clock, safe_id_display, EventLevel, Header, MessageCountToDisplay, MessageGraphView,
    MessageViewType, SettingsView, ViewType,
};

#[test]
fn clock_faces() {
    assert_eq!(clock(0, 0), '\u{1F55B}');
    assert_eq!(clock(3, 0), '\u{1F552}');
    assert_eq!(clock(3, 20), '\u{1F55E}');
    assert_eq!(clock(3, 50), '\u{1F553}');
    assert_eq!(clock(11, 50), '\u{1F55B}');
    assert_eq!(clock(12, 30), '\u{1F567}');
    assert_eq!(clock(23, 14), '\u{1F55A}');
}

#[test]
fn short_ids() {
    assert_eq!(safe_id_display("0123456789abcdef"), "01234567");
    assert_eq!(safe_id_display("01234567"), "01234567");
    assert_eq!(safe_id_display("abc"), "abc");
    assert_eq!(safe_id_display(""), "");
}

#[test]
fn view_names() {
    assert_eq!(ViewType::MessageGraph.name(), "📈 Graph");
    assert_eq!(ViewType::MessageList.name(), "💬 List ");
    assert_eq!(ViewType::Network.name(), "🖧 Network");
    assert_eq!(MessageViewType::MessageGraph.name(), "📈 Graph");
    assert_eq!(MessageViewType::MessageList.name(), "💬 List ");
}

#[test]
fn view_state_defaults() {
    let h = Header::new();
    assert_eq!(h.minutes(), 100);
    let g = MessageGraphView::new();
    assert!(g.auto_bounds && g.show_current_time && !g.hovered);
    let _s = SettingsView::new();
    assert_ne!(EventLevel::Info, EventLevel::Error);
    assert_eq!(MessageCountToDisplay::Last(3), MessageCountToDisplay::Last(3));
}

#[test]
fn truncated_labels() {
    let g = MessageGraphView::new();
    assert_eq!(g.truncate_text("hello", 10), "hello");
    assert_eq!(g.truncate_text("abc", 3), "abc");
    assert_eq!(g.truncate_text("hello world", 8), "hello...");
    assert_eq!(g.truncate_text("abcdef", 2), "...");
    assert_eq!(g.truncate_text("", 0), "");
}
