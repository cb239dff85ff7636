use crustal::blog::{has_extension, is_markdown_file, parse_i32};
use crustal::{
    get_frontmatter, output_path, post_id_number, read_post, read_posts, remove_frontmatter,
    sort_posts_desc, Post, PostMeta,
};

fn post(file_name: &str, id: &str) -> Post {
    Post {
        file_name: file_name.to_string(),
        meta: PostMeta {
            id: id.to_string(),
            title: "t".to_string(),
            description: String::new(),
            created_at: "2026-05-03".to_string(),
        },
        body: String::new(),
    }
}

fn names(posts: &[Post]) -> Vec<&str> {
    posts.iter().map(|p| p.file_name.as_str()).collect()
}

const EXAMPLE: &str = "---\nid: 1\ntitle: Example title\ndescription: Example description\ncreated_at: 2026-05-03\n---\n\nContent starts here.\n";

#[test]
fn frontmatter_of_the_documented_example() {
    let f = get_frontmatter(EXAMPLE);
    assert_eq!(f.id.as_deref(), Some("1"));
    assert_eq!(f.title.as_deref(), Some("Example title"));
    assert_eq!(f.description.as_deref(), Some("Example description"));
    assert_eq!(f.created_at.as_deref(), Some("2026-05-03"));
    assert_eq!(remove_frontmatter(EXAMPLE), "\nContent starts here.\n");
}

#[test]
fn frontmatter_absent_or_unclosed() {
    let plain = "# Title\n\nid: 3\n";
    let f = get_frontmatter(plain);
    assert_eq!(f.id, None);
    assert_eq!(f.title, None);
    assert_eq!(remove_frontmatter(plain), plain);

    let unclosed = "---\nid: 3\ntitle: x\n";
    assert_eq!(get_frontmatter(unclosed).id, None);
    assert_eq!(remove_frontmatter(unclosed), unclosed);

    assert_eq!(get_frontmatter("").id, None);
    assert_eq!(remove_frontmatter(""), "");
}

#[test]
fn frontmatter_trims_keys_and_values_and_later_lines_win() {
    let md = "  ---  \n  id :  7 \nunknown: z\nno colon here\nid: 8\ntitle: a: b\n---";
    let f = get_frontmatter(md);
    assert_eq!(f.id.as_deref(), Some("8"));
    assert_eq!(f.title.as_deref(), Some("a: b"));
    assert_eq!(f.description, None);
    assert_eq!(remove_frontmatter(md), "");
}

#[test]
fn read_post_requires_id_title_and_created_at() {
    let p = read_post("hello.md", EXAMPLE).unwrap();
    assert_eq!(p.file_name, "hello.md");
    assert_eq!(p.meta.id, "1");
    assert_eq!(p.meta.title, "Example title");
    assert_eq!(p.meta.description, "Example description");
    assert_eq!(p.meta.created_at, "2026-05-03");
    assert_eq!(p.body, "\nContent starts here.\n");

    assert!(read_post("a.md", "---\ntitle: x\ncreated_at: y\n---\n").is_none());
    assert!(read_post("a.md", "---\nid: 1\ncreated_at: y\n---\n").is_none());
    assert!(read_post("a.md", "---\nid: 1\ntitle: x\n---\n").is_none());
    assert!(read_post("a.md", "no front matter").is_none());
}

#[test]
fn read_post_defaults_description_to_empty() {
    let p = read_post("b.md", "---\nid: 2\ntitle: T\ncreated_at: D\n---\nbody").unwrap();
    assert_eq!(p.meta.description, "");
    assert_eq!(p.body, "body");
}

#[test]
fn post_id_number_parses_or_defaults_to_zero() {
    assert_eq!(post_id_number(&post("a", "42")), 42);
    assert_eq!(post_id_number(&post("a", "-7")), -7);
    assert_eq!(post_id_number(&post("a", "+5")), 5);
    assert_eq!(post_id_number(&post("a", "abc")), 0);
    assert_eq!(post_id_number(&post("a", "")), 0);
    assert_eq!(post_id_number(&post("a", " 3")), 0);
    assert_eq!(post_id_number(&post("a", "2147483647")), 2147483647);
    assert_eq!(post_id_number(&post("a", "2147483648")), 0);
    assert_eq!(post_id_number(&post("a", "-2147483648")), -2147483648);
    assert_eq!(post_id_number(&post("a", "-2147483649")), 0);
}

#[test]
fn parse_i32_matches_str_parse() {
    for s in ["0", "-0", "+0", "12", "-", "+", "", "1a", "007", "99999999999"] {
        assert_eq!(parse_i32(s.as_bytes()), s.parse::<i32>().ok(), "input {s:?}");
    }
}

#[test]
fn sort_posts_desc_is_stable_and_descending() {
    let mut posts = vec![
        post("one", "1"),
        post("three-a", "3"),
        post("junk", "x"),
        post("two", "2"),
        post("three-b", "3"),
        post("minus", "-1"),
    ];
    sort_posts_desc(&mut posts);
    assert_eq!(names(&posts), vec!["three-a", "three-b", "two", "one", "junk", "minus"]);
}

#[test]
fn sorting_sorted_posts_keeps_them() {
    let mut posts = vec![post("c", "3"), post("b", "2"), post("b2", "2"), post("a", "1")];
    let before = posts.clone();
    sort_posts_desc(&mut posts);
    assert_eq!(posts, before);
    let mut empty: Vec<Post> = Vec::new();
    sort_posts_desc(&mut empty);
    assert!(empty.is_empty());
}

#[test]
fn read_posts_skips_invalid_and_orders_by_id() {
    let sources = vec![
        ("a.md".to_string(), "---\nid: 2\ntitle: A\ncreated_at: x\n---\n".to_string()),
        ("bad.md".to_string(), "---\nid: 9\n---\n".to_string()),
        ("b.md".to_string(), "---\nid: 10\ntitle: B\ncreated_at: y\n---\n".to_string()),
        ("c.md".to_string(), "---\nid: 2\ntitle: C\ncreated_at: z\n---\n".to_string()),
    ];
    let posts = read_posts(sources);
    assert_eq!(names(&posts), vec!["b.md", "a.md", "c.md"]);
    assert_eq!(posts[0].meta.title, "B");
}

#[test]
fn output_path_is_relative_to_the_current_directory() {
    assert_eq!(output_path("posts/a.html"), "./posts/a.html");
    assert_eq!(output_path("index.html"), "./index.html");
    assert_eq!(output_path(""), "./");
    assert_eq!(output_path("/srv/site"), "/srv/site");
}

#[test]
fn markdown_file_names() {
    assert!(is_markdown_file("post.md"));
    assert!(is_markdown_file(".md"));
    assert!(!is_markdown_file("post.mdx"));
    assert!(!is_markdown_file("md"));
    assert!(!is_markdown_file(""));
}

#[test]
fn file_extensions_follow_path_rules() {
    assert!(has_extension("image.png", "png"));
    assert!(!has_extension("image.png", "jpg"));
    assert!(has_extension("archive.tar.gz", "gz"));
    assert!(!has_extension("archive.tar.gz", "tar.gz"));
    assert!(!has_extension(".bashrc", "bashrc"));
    assert!(has_extension(".config.toml", "toml"));
    assert!(has_extension("name.", ""));
    assert!(!has_extension("name", ""));
    assert!(!has_extension("..", ""));
    assert!(!has_extension(".", ""));
}
