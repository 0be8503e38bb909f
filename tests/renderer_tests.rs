use cmf::layout::{code_box, column_widths};
use cmf::terminal_renderer::{
    BlockquoteRenderer, CodeBlockRenderer, ElementRenderer, ListRenderer, MarkdownRenderer,
    RenderContext, TableRenderer,
};

fn renderer_no_colors() -> MarkdownRenderer {
    MarkdownRenderer::new(false)
}

fn table_rows() -> Vec<Vec<String>> {
    vec![
        vec!["Name".to_string(), "Age".to_string()],
        vec!["Alice".to_string(), "30".to_string()],
        vec!["Bob".to_string(), "25".to_string()],
    ]
}

#[test]
fn test_plain_text() {
    let renderer = renderer_no_colors();
    let result = renderer.render("4 + 5 = 9");
    assert_eq!(result.trim(), "4 + 5 = 9");
}

#[test]
fn test_bold() {
    let renderer = renderer_no_colors();
    let result = renderer.render("**bold text**");
    assert!(result.contains("bold text"));
}

#[test]
fn test_italic() {
    let renderer = renderer_no_colors();
    let result = renderer.render("*italic text*");
    assert!(result.contains("italic text"));
}

#[test]
fn test_inline_code() {
    let renderer = renderer_no_colors();
    let result = renderer.render("Use `cargo build` to compile");
    assert!(result.contains("cargo build"));
}

#[test]
fn test_header() {
    let renderer = renderer_no_colors();
    let result = renderer.render("# Main Title");
    assert!(result.contains("Main Title"));
}

#[test]
fn test_list() {
    let renderer = renderer_no_colors();
    let result = renderer.render("- Item 1\n- Item 2\n- Item 3");
    assert!(result.contains("Item 1"));
    assert!(result.contains("Item 2"));
    assert!(result.contains("Item 3"));
}

#[test]
fn test_ordered_list() {
    let renderer = renderer_no_colors();
    let result = renderer.render("1. First\n2. Second\n3. Third");
    assert!(result.contains("First"));
    assert!(result.contains("Second"));
    assert!(result.contains("Third"));
}

#[test]
fn test_code_block() {
    let renderer = renderer_no_colors();
    let result = renderer.render("```\nfn main() {}\n```");
    assert!(result.contains("fn main()"));
}

#[test]
fn test_mixed_formatting() {
    let renderer = renderer_no_colors();
    let result = renderer.render("Here's **bold** and *italic* text with `code`");
    assert!(result.contains("bold"));
    assert!(result.contains("italic"));
    assert!(result.contains("code"));
}

#[test]
fn test_link() {
    let renderer = renderer_no_colors();
    let result = renderer.render("[Example](https://example.com)");
    assert!(result.contains("Example"));
}

#[test]
fn test_paragraph_spacing() {
    let renderer = renderer_no_colors();
    let result = renderer.render("First paragraph.\n\nSecond paragraph.");
    assert!(result.contains("First paragraph"));
    assert!(result.contains("Second paragraph"));
}

#[test]
fn test_blockquote() {
    let renderer = renderer_no_colors();
    let result = renderer.render("> This is a quote\n> with multiple lines");
    assert!(result.contains("This is a quote"));
    assert!(result.contains("with multiple lines"));
    assert!(result.contains("▌"));
}

#[test]
fn test_render_table_function() {
    let renderer = renderer_no_colors();
    let rows = table_rows();
    let result = renderer.render_table(&rows);
    assert!(result.contains("┌"));
    assert!(result.contains("┐"));
    assert!(result.contains("└"));
    assert!(result.contains("┘"));
    assert!(result.contains("│"));
    assert!(result.contains("Name"));
    assert!(result.contains("Alice"));
    assert!(result.contains("Bob"));
}

#[test]
fn plain_text_comes_back_unchanged() {
    let r = renderer_no_colors();
    assert_eq!(r.render("4 + 5 = 9"), "4 + 5 = 9");
    assert_eq!(r.render(""), "");
    assert_eq!(MarkdownRenderer::new(true).render("no markup here"), "no markup here");
}

#[test]
fn syntax_scan_finds_each_trigger() {
    let r = renderer_no_colors();
    for t in ["a**b", "a*b", "a`b", "#", "[x", "- x", "1. x", "a\nb"] {
        assert!(r.has_markdown_syntax(t), "{}", t);
    }
    assert!(!r.has_markdown_syntax("a-b 2. c"));
}

#[test]
fn no_escape_sequences_without_colors() {
    let r = renderer_no_colors();
    let out = r.render("**bold** _it_ [l](u) `c`\n\n> q\n\n- item");
    assert!(!out.contains('\u{1b}'));
}

#[test]
fn end_to_end_without_colors() {
    let r = renderer_no_colors();
    assert_eq!(r.render("**bold** and *italic* with `code`"), "bold and italic with code\n");
}

#[test]
fn column_widths_are_column_maxima() {
    assert_eq!(column_widths(&table_rows()), vec![5, 3]);
    let ragged = vec![vec!["a".to_string()], vec!["bb".to_string(), "ccc".to_string()]];
    assert_eq!(column_widths(&ragged), vec![2, 3]);
    assert_eq!(column_widths(&[]), Vec::<usize>::new());
}

#[test]
fn table_grid_has_separator_between_rows() {
    let out = renderer_no_colors().render_table(&table_rows());
    assert_eq!(
        out,
        "┌───────┬─────┐\n│ Name  │ Age │\n├───────┼─────┤\n│ Alice │ 30  │\n├───────┼─────┤\n│ Bob   │ 25  │\n└───────┴─────┘"
    );
    assert_eq!(out.lines().filter(|l| l.starts_with('├')).count(), 2);
    assert_eq!(renderer_no_colors().render_table(&[]), "");
}

#[test]
fn ragged_table_draws_only_present_cells() {
    let rows = vec![vec!["a".to_string(), "b".to_string()], vec!["c".to_string()]];
    let out = renderer_no_colors().render_table(&rows);
    assert_eq!(out, "┌───┬───┐\n│ a │ b │\n├───┼───┤\n│ c │\n└───┴───┘");
}

#[test]
fn markdown_table_renders_as_grid() {
    let out = renderer_no_colors().render("| a | b |\n|---|---|\n| 1 | 22 |");
    assert_eq!(out, "┌───┬────┐\n│ a │ b  │\n├───┼────┤\n│ 1 │ 22 │\n└───┴────┘\n");
}

#[test]
fn ordered_list_numbers_from_one() {
    let out = renderer_no_colors().render("1. First\n2. Second\n3. Third");
    assert_eq!(out, "1. First\n2. Second\n3. Third\n");
}

#[test]
fn unordered_list_uses_bullets() {
    let out = renderer_no_colors().render("- Item 1\n- Item 2");
    assert_eq!(out, "• Item 1\n• Item 2\n");
}

#[test]
fn task_markers_are_drawn() {
    let out = renderer_no_colors().render("- [x] done\n- [ ] todo");
    assert_eq!(out, "• ☑ done\n• ☐ todo\n");
}

#[test]
fn blockquote_lines_share_the_bar() {
    assert_eq!(BlockquoteRenderer::add_prefix_to_lines("line one\nline two"), "▌ line one\n▌ line two");
    let out = renderer_no_colors().render("> line one\n> line two");
    let quoted: Vec<&str> = out.lines().filter(|l| !l.is_empty()).collect();
    assert_eq!(quoted, vec!["▌ line one", "▌ line two"]);
}

#[test]
fn blank_line_is_inserted_once() {
    let mut ctx = RenderContext::new(false);
    ctx.push_str("x");
    ctx.ensure_blank_line();
    ctx.ensure_blank_line();
    assert_eq!(ctx.output, "x\n\n");
    ctx.ensure_blank_line();
    assert_eq!(ctx.output, "x\n\n");
    let mut empty = RenderContext::new(false);
    empty.ensure_blank_line();
    empty.ensure_newline();
    assert_eq!(empty.output, "");
}

#[test]
fn context_finishes_with_one_newline() {
    let mut ctx = RenderContext::new(false);
    ctx.push_str("text  ");
    ctx.push_newline();
    ctx.push_newline();
    assert_eq!(ctx.pending_newlines, 2);
    assert_eq!(ctx.into_output(), "text\n");
}

#[test]
fn code_block_is_padded_to_longest_line() {
    assert_eq!(code_box("ab\nc"), "┌────┐\n│ ab │\n│ c  │\n└────┘");
    assert_eq!(code_box(""), "");
    let out = renderer_no_colors().render("```\nfn main() {}\n```");
    assert_eq!(out, "┌──────────────┐\n│ fn main() {} │\n└──────────────┘\n");
}

#[test]
fn heading_and_paragraphs_are_spaced() {
    let r = renderer_no_colors();
    assert_eq!(r.render("# Main Title"), "Main Title\n");
    assert_eq!(
        r.render("First paragraph.\n\nSecond paragraph."),
        "First paragraph.\n\nSecond paragraph.\n"
    );
}

#[test]
fn colors_wrap_styled_text() {
    colored::control::set_override(true);
    let r = MarkdownRenderer::new(true);
    assert_eq!(r.render("**b**"), "\u{1b}[1mb\u{1b}[0m\n");
    assert_eq!(r.render("*i*"), "\u{1b}[3mi\u{1b}[0m\n");
    assert_eq!(r.render("`c`"), "\u{1b}[7mc\u{1b}[0m\n");
    assert_eq!(r.render("[l](u)"), "\u{1b}[4;34ml\u{1b}[0m\n");
}

#[test]
fn outer_numbering_resumes_after_nested_list() {
    let out = renderer_no_colors().render("1. a\n   - x\n2. b\n3. c");
    let one = out.find("1. a").unwrap();
    let bullet = out.find("• x").unwrap();
    let two = out.find("2. b").unwrap();
    let three = out.find("3. c").unwrap();
    assert!(one < bullet && bullet < two && two < three);
    assert!(!out.contains("• b"));
}

#[test]
fn nested_ordered_lists_count_separately() {
    let out = renderer_no_colors().render("1. a\n   1. x\n   2. y\n2. b");
    assert!(out.contains("  1. x"));
    assert!(out.contains("  2. y"));
    assert!(out.contains("2. b"));
}

#[test]
fn start_item_marks_item_open() {
    let mut list = ListRenderer::new(true, 2);
    let mut out = String::new();
    list.start_item(&mut out, 2);
    assert!(list.in_item);
    assert_eq!(out, "  1. ");
    list.start_item(&mut out, 2);
    assert_eq!(out, "  1.   2. ");
    assert_eq!(list.item_indices, vec![2]);
}

#[test]
fn table_renderer_through_trait() {
    let mut ctx = RenderContext::new(false);
    let mut t = TableRenderer::new();
    t.start(&mut ctx);
    for row in table_rows() {
        t.start_row();
        for cell in row {
            t.start_cell();
            t.handle_text(&cell, &mut ctx);
            t.end_cell();
        }
        t.end_row();
    }
    assert_eq!(
        t.end(&mut ctx),
        Some("┌───────┬─────┐\n│ Name  │ Age │\n├───────┼─────┤\n│ Alice │ 30  │\n├───────┼─────┤\n│ Bob   │ 25  │\n└───────┴─────┘".to_string())
    );
    assert_eq!(ctx.output, "");
}

#[test]
fn table_cell_breaks_through_trait() {
    let mut ctx = RenderContext::new(false);
    let mut t = TableRenderer::new();
    t.start_cell();
    t.handle_text("a", &mut ctx);
    t.handle_soft_break(&mut ctx);
    t.handle_text("b", &mut ctx);
    t.handle_hard_break(&mut ctx);
    t.handle_text("c", &mut ctx);
    t.end_cell();
    assert_eq!(t.current_row, vec!["a b\nc".to_string()]);
    assert_eq!(t.current_cell, "");
}

#[test]
fn blockquote_through_trait() {
    for hard in [false, true] {
        let mut ctx = RenderContext::new(false);
        let mut b = BlockquoteRenderer::new();
        b.start(&mut ctx);
        b.handle_text("line one", &mut ctx);
        if hard {
            b.handle_hard_break(&mut ctx);
        } else {
            b.handle_soft_break(&mut ctx);
        }
        b.handle_text("line two", &mut ctx);
        assert_eq!(b.end(&mut ctx), Some("▌ line one\n▌ line two".to_string()));
    }
}

#[test]
fn code_block_through_trait() {
    for hard in [false, true] {
        let mut ctx = RenderContext::new(false);
        let mut c = CodeBlockRenderer::new();
        c.start(&mut ctx);
        c.handle_text("ab", &mut ctx);
        if hard {
            c.handle_hard_break(&mut ctx);
        } else {
            c.handle_soft_break(&mut ctx);
        }
        c.handle_text("c", &mut ctx);
        assert_eq!(c.end(&mut ctx), Some("┌────┐\n│ ab │\n│ c  │\n└────┘".to_string()));
    }
}

#[test]
fn list_buffer_through_trait() {
    let mut ctx = RenderContext::new(false);
    let mut l = ListRenderer::new(false, 1);
    l.start(&mut ctx);
    l.handle_text("a", &mut ctx);
    l.handle_soft_break(&mut ctx);
    l.handle_hard_break(&mut ctx);
    assert_eq!(l.buffer, "a \n");
    assert_eq!(l.end(&mut ctx), None);
}

#[test]
fn nested_styles_wrap_innermost_first() {
    colored::control::set_override(true);
    let r = MarkdownRenderer::new(true);
    assert_eq!(
        r.render("**a *b* c**"),
        "\u{1b}[1ma \u{1b}[0m\u{1b}[1m\u{1b}[3mb\u{1b}[0m\u{1b}[1m\u{1b}[0m\u{1b}[1m c\u{1b}[0m\n"
    );
}
