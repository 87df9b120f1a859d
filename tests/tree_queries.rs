use epiclist_scraper::anns::BaseAnnotation;
use epiclist_scraper::tree::AnnotationTree;

struct TestAnnotation {
    id: &'static str,
    start: usize,
    end: usize,
    depth: usize,
}

impl TestAnnotation {
    fn label(&self) -> String {
        format!("{}:{}-{}", self.id, self.start, self.end)
    }
}

fn spans(data: &[TestAnnotation]) -> Vec<BaseAnnotation> {
    data.iter()
        .map(|a| BaseAnnotation { start: a.start, end: a.end, depth: a.depth })
        .collect()
}

fn labels(data: &[TestAnnotation], idx: Vec<usize>) -> Vec<String> {
    idx.into_iter().map(|i| data[i].label()).collect()
}

#[test]
fn test() {
    let data = vec![
        TestAnnotation { id: "body", start: 0, end: 10, depth: 0 },
        TestAnnotation { id: "paragraph1", start: 0, end: 10, depth: 1 },
        TestAnnotation { id: "link", start: 2, end: 8, depth: 3 },
        TestAnnotation { id: "icon", start: 2, end: 3, depth: 4 },
        TestAnnotation { id: "icon", start: 3, end: 4, depth: 4 },
        TestAnnotation { id: "icon", start: 4, end: 5, depth: 4 },
    ];
    let tree = AnnotationTree::new(&spans(&data));
    let ancestors = labels(&data, tree.ancestors(3));
    assert_eq!(ancestors, vec!["link:2-8", "paragraph1:0-10", "body:0-10"]);

    let descendants = labels(&data, tree.descendants(1));
    assert_eq!(
        descendants,
        vec!["link:2-8", "icon:2-3", "icon:3-4", "icon:4-5"]
    );

    let children = labels(&data, tree.children(0));
    assert_eq!(children, vec!["paragraph1:0-10"]);

    assert_eq!(data[tree.parent(3).unwrap()].label(), "link:2-8");

    let siblings = labels(&data, tree.siblings(4));
    assert_eq!(siblings, vec!["icon:2-3", "icon:4-5"]);

    let before = labels(&data, tree.before(4));
    assert_eq!(before, vec!["icon:2-3"]);

    let after = labels(&data, tree.after(4));
    assert_eq!(after, vec!["icon:4-5"]);

    assert!(tree.parent(0).is_none());
    assert!(tree.children(3).is_empty());
}

#[test]
fn same_range_annotations_stay_distinct() {
    let spans = vec![
        BaseAnnotation { start: 0, end: 6, depth: 0 },
        BaseAnnotation { start: 0, end: 6, depth: 0 },
        BaseAnnotation { start: 1, end: 3, depth: 1 },
    ];
    let tree = AnnotationTree::new(&spans);
    assert_eq!(tree.ancestors(2), vec![0, 1]);
    assert_eq!(tree.parent(2), Some(0));
    assert_eq!(tree.ancestors(0), Vec::<usize>::new());
    let mut hits = tree.query(2..3);
    hits.sort();
    assert_eq!(hits, vec![0, 1, 2]);
    assert_eq!(tree.query(6..9), Vec::<usize>::new());
}

#[test]
fn parent_needs_depth_exactly_one_less() {
    let spans = vec![
        BaseAnnotation { start: 0, end: 10, depth: 0 },
        BaseAnnotation { start: 2, end: 4, depth: 2 },
    ];
    let tree = AnnotationTree::new(&spans);
    assert_eq!(tree.ancestors(1), vec![0]);
    assert_eq!(tree.parent(1), None);
    assert!(tree.siblings(1).is_empty());
    assert!(tree.children(0).is_empty());
    assert_eq!(tree.descendants(0), vec![1]);
}

#[test]
fn parent_lists_child_and_before_after_split_siblings() {
    let spans = vec![
        BaseAnnotation { start: 0, end: 9, depth: 0 },
        BaseAnnotation { start: 0, end: 3, depth: 1 },
        BaseAnnotation { start: 3, end: 6, depth: 1 },
        BaseAnnotation { start: 6, end: 9, depth: 1 },
    ];
    let tree = AnnotationTree::new(&spans);
    let p = tree.parent(2).unwrap();
    assert!(tree.children(p).contains(&2));
    assert!(!tree.ancestors(2).contains(&2));
    assert!(!tree.descendants(2).contains(&2));
    assert_eq!(tree.before(2), vec![1]);
    assert_eq!(tree.after(2), vec![3]);
    assert_eq!(tree.siblings(2), vec![1, 3]);
}
