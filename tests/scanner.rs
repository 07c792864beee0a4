use disk_scanner::cache::DiskScanner;
use disk_scanner::errors::{ErrorKind, ScanError};
use disk_scanner::identity::Identity;
use disk_scanner::node::FileNode;
use disk_scanner::scan::{Entry, Probe};

const ROOT: &str = "/tmp/scan_root";

fn id(inode: u64) -> Identity {
    Identity { device: 1, inode }
}

fn file(parent: &str, name: &str, len: u64, inode: u64) -> Entry {
    Entry {
        name: name.to_string(),
        path: format!("{}/{}", parent, name),
        probe: Probe::File { len, id: id(inode) },
    }
}

fn dir(parent: &str, name: &str, inode: u64, entries: Vec<Entry>) -> Entry {
    Entry {
        name: name.to_string(),
        path: format!("{}/{}", parent, name),
        probe: Probe::Dir { id: id(inode), entries },
    }
}

fn root_dir(path: &str, inode: u64, entries: Vec<Entry>) -> Entry {
    Entry {
        name: path.rsplit('/').next().unwrap().to_string(),
        path: path.to_string(),
        probe: Probe::Dir { id: id(inode), entries },
    }
}

/// A sample tree: three directories and two files at the
/// top, with files of 5000, 2000 and 500 bytes below.
fn create_complex_test_structure() -> Entry {
    let docs = format!("{}/Documents", ROOT);
    let projects = format!("{}/Projects", docs);
    let project_a = format!("{}/ProjectA", projects);
    let project_b = format!("{}/ProjectB", projects);
    let images = format!("{}/Images", ROOT);
    let videos = format!("{}/Videos", ROOT);
    let movies = format!("{}/Movies", videos);
    root_dir(
        ROOT,
        1,
        vec![
            file(ROOT, "config.json", 2000, 2),
            dir(
                ROOT,
                "Documents",
                3,
                vec![
                    file(&docs, "notes.txt", 5000, 4),
                    dir(
                        &docs,
                        "Projects",
                        5,
                        vec![
                            dir(
                                &projects,
                                "ProjectA",
                                6,
                                vec![
                                    file(&project_a, "main.py", 5000, 7),
                                    file(&project_a, "utils.py", 500, 8),
                                ],
                            ),
                            dir(&projects, "ProjectB", 9, vec![file(&project_b, "app.js", 2000, 10)]),
                            file(&projects, "README.md", 2000, 11),
                        ],
                    ),
                ],
            ),
            dir(
                ROOT,
                "Images",
                12,
                vec![file(&images, "photo1.jpg", 5000, 13), file(&images, "photo2.png", 2000, 14)],
            ),
            file(ROOT, "readme.txt", 5000, 15),
            dir(
                ROOT,
                "Videos",
                16,
                vec![
                    dir(&videos, "Movies", 17, vec![file(&movies, "movie1.avi", 5000, 18)]),
                    file(&videos, "video1.mp4", 5000, 19),
                ],
            ),
        ],
    )
}

fn validate_file_node(node: &FileNode, expected_name: &str, expected_is_dir: bool) {
    assert_eq!(node.name, expected_name);
    assert_eq!(node.is_directory, expected_is_dir);
    assert!(!node.path.is_empty());
    if !expected_is_dir {
        assert!(node.size > 0, "File {} should have size > 0", expected_name);
    }
}

fn validate_directory_node(node: &FileNode, expected_name: &str, expected_children_count: usize) {
    validate_file_node(node, expected_name, true);
    assert_eq!(node.children.len(), expected_children_count);
}

fn find<'a>(nodes: &'a [FileNode], name: &str) -> Option<&'a FileNode> {
    nodes.iter().find(|c| c.name == name)
}

fn cached_scanner() -> DiskScanner {
    let mut scanner = DiskScanner::new();
    scanner.build_cache(&create_complex_test_structure()).unwrap();
    scanner
}

fn children_of(scanner: &DiskScanner, path: &str, depth: u32) -> Result<Vec<FileNode>, ScanError> {
    scanner.get_result_with_depth(path, depth).map(|n| n.children)
}

#[test]
fn test_get_directory_children_root_path() {
    let scanner = cached_scanner();
    let result = children_of(&scanner, ROOT, 0);
    assert!(result.is_ok(), "Should successfully get root directory children");
    let children = result.unwrap();
    assert!(children.len() >= 5, "Root should have at least 5 children");
    let mut found_documents = false;
    let mut found_images = false;
    let mut found_videos = false;
    let mut found_files = 0;
    for child in &children {
        match child.name.as_str() {
            "Documents" => {
                found_documents = true;
                validate_file_node(child, "Documents", true);
            }
            "Images" => {
                found_images = true;
                validate_file_node(child, "Images", true);
            }
            "Videos" => {
                found_videos = true;
                validate_file_node(child, "Videos", true);
            }
            "readme.txt" => {
                found_files += 1;
                validate_file_node(child, "readme.txt", false);
                assert!(child.size >= 5000, "readme.txt should be at least 5000 bytes");
            }
            "config.json" => {
                found_files += 1;
                validate_file_node(child, "config.json", false);
                assert!(child.size >= 2000, "config.json should be at least 2000 bytes");
            }
            _ => {}
        }
    }
    assert!(found_documents, "Should find Documents directory");
    assert!(found_images, "Should find Images directory");
    assert!(found_videos, "Should find Videos directory");
    assert!(found_files >= 2, "Should find at least 2 files in root");
}

#[test]
fn test_get_directory_children_nested_path() {
    let scanner = cached_scanner();
    let documents_path = format!("{}/Documents", ROOT);
    let result = children_of(&scanner, &documents_path, 0);
    assert!(result.is_ok(), "Should successfully get Documents directory children");
    let children = result.unwrap();
    assert!(children.len() >= 2, "Documents should have at least 2 children");
    let projects = find(&children, "Projects");
    assert!(projects.is_some(), "Should find Projects directory");
    validate_file_node(projects.unwrap(), "Projects", true);
    let notes = find(&children, "notes.txt");
    assert!(notes.is_some(), "Should find notes.txt file");
    validate_file_node(notes.unwrap(), "notes.txt", false);
    assert!(notes.unwrap().size >= 5000, "notes.txt should be at least 5000 bytes");
}

#[test]
fn test_get_directory_children_with_depth_level_1() {
    let scanner = cached_scanner();
    let result = children_of(&scanner, ROOT, 1);
    assert!(result.is_ok(), "Should successfully get children with depth 1");
    let children = result.unwrap();
    assert!(children.len() >= 5, "Root should have at least 5 children with depth 1");
    let documents = find(&children, "Documents");
    assert!(documents.is_some(), "Should find Documents directory");
    let documents = documents.unwrap();
    validate_directory_node(documents, "Documents", 2);
    let projects = find(&documents.children, "Projects");
    assert!(projects.is_some(), "Documents should have Projects subdirectory");
    assert_eq!(projects.unwrap().children.len(), 0, "Projects should have no children at depth 1");
}

#[test]
fn test_get_directory_children_with_depth_level_2() {
    let scanner = cached_scanner();
    let result = children_of(&scanner, ROOT, 2);
    assert!(result.is_ok(), "Should successfully get children with depth 2");
    let children = result.unwrap();
    let documents = find(&children, "Documents");
    assert!(documents.is_some(), "Should find Documents directory");
    let documents = documents.unwrap();
    validate_directory_node(documents, "Documents", 2);
    let projects = find(&documents.children, "Projects");
    assert!(projects.is_some(), "Documents should have Projects subdirectory");
    let projects = projects.unwrap();
    validate_directory_node(projects, "Projects", 3);
    let project_a = find(&projects.children, "ProjectA");
    assert!(project_a.is_some(), "Projects should have ProjectA subdirectory");
    assert_eq!(project_a.unwrap().children.len(), 0, "ProjectA should have no children at depth 2");
}

#[test]
fn test_get_directory_children_with_depth_level_3() {
    let scanner = cached_scanner();
    let result = children_of(&scanner, ROOT, 3);
    assert!(result.is_ok(), "Should successfully get children with depth 3");
    let children = result.unwrap();
    let documents = find(&children, "Documents").unwrap();
    let projects = find(&documents.children, "Projects").unwrap();
    let project_a = find(&projects.children, "ProjectA");
    assert!(project_a.is_some(), "Should find ProjectA at depth 3");
    let project_a = project_a.unwrap();
    validate_directory_node(project_a, "ProjectA", 2);
    let main_py = find(&project_a.children, "main.py");
    assert!(main_py.is_some(), "ProjectA should have main.py file");
    let main_py = main_py.unwrap();
    validate_file_node(main_py, "main.py", false);
    assert!(main_py.size >= 5000, "main.py should be at least 5000 bytes");
    let utils_py = find(&project_a.children, "utils.py");
    assert!(utils_py.is_some(), "ProjectA should have utils.py file");
    let utils_py = utils_py.unwrap();
    validate_file_node(utils_py, "utils.py", false);
    assert!(utils_py.size >= 500, "utils.py should be at least 500 bytes");
}

fn names(node: &FileNode) -> Vec<String> {
    node.children.iter().map(|c| c.name.clone()).collect()
}

#[test]
fn test_get_directory_info_accuracy() {
    let scanner = cached_scanner();
    let root_info = scanner.get_result_with_depth(ROOT, 0).unwrap();
    assert!(root_info.is_directory);
    assert!(root_info.children_count >= 5);
    let root_names = names(&root_info);
    assert!(root_names.contains(&"Documents".to_string()));
    assert!(root_names.contains(&"Images".to_string()));
    assert!(root_names.contains(&"Videos".to_string()));

    let documents_info = scanner.get_result_with_depth(&format!("{}/Documents", ROOT), 0).unwrap();
    assert!(documents_info.is_directory);
    assert!(documents_info.children_count >= 2);
    let documents_names = names(&documents_info);
    assert!(documents_names.contains(&"Projects".to_string()));
    assert!(documents_names.contains(&"notes.txt".to_string()));

    let project_a_path = format!("{}/Documents/Projects/ProjectA", ROOT);
    let project_a_info = scanner.get_result_with_depth(&project_a_path, 0).unwrap();
    assert!(project_a_info.is_directory);
    assert_eq!(project_a_info.children_count, 2);
    let project_a_names = names(&project_a_info);
    assert!(project_a_names.contains(&"main.py".to_string()));
    assert!(project_a_names.contains(&"utils.py".to_string()));
}

#[test]
fn test_build_directory_cache_accuracy() {
    let mut scanner = DiskScanner::new();
    let result = scanner.build_cache(&create_complex_test_structure());
    assert!(result.is_ok());

    let root_info = scanner.get_result_with_depth(ROOT, 0).unwrap();
    assert!(root_info.is_directory);
    assert!(root_info.children_count >= 5);
    assert!(root_info.size > 0);

    let documents_info = scanner.get_result_with_depth(&format!("{}/Documents", ROOT), 0).unwrap();
    assert!(documents_info.is_directory);
    assert!(documents_info.children_count >= 2);
    assert!(documents_info.size > 0);

    let project_a_info = scanner
        .get_result_with_depth(&format!("{}/Documents/Projects/ProjectA", ROOT), 0)
        .unwrap();
    assert!(project_a_info.is_directory);
    assert_eq!(project_a_info.children_count, 2);
    assert!(project_a_info.size > 0);
}

#[test]
fn test_empty_directory_handling() {
    let mut scanner = DiskScanner::new();
    let empty_path = "/tmp/empty_dir";
    assert!(scanner.build_cache(&root_dir(empty_path, 40, vec![])).is_ok());

    let children_result = children_of(&scanner, empty_path, 0);
    assert!(children_result.is_ok());
    assert_eq!(children_result.unwrap().len(), 0, "Empty directory should have no children");

    let depth_result = children_of(&scanner, empty_path, 2);
    assert!(depth_result.is_ok());
    assert_eq!(depth_result.unwrap().len(), 0, "Empty directory should have no children with depth");

    let info = scanner.get_result_with_depth(empty_path, 0).unwrap();
    assert_eq!(info.children_count, 0);
    assert_eq!(info.size, 0);
}

#[test]
fn test_nonexistent_path_errors() {
    let mut scanner = DiskScanner::new();
    let nonexistent_path = "/this/path/does/not/exist";

    let missing = Entry {
        name: "exist".to_string(),
        path: nonexistent_path.to_string(),
        probe: Probe::Failed { error: ErrorKind::NotFound },
    };
    let build_result = scanner.build_cache(&missing);
    assert!(build_result.is_err());
    assert!(build_result.unwrap_err().message().contains("does not exist"));

    let depth_result = scanner.get_result_with_depth(nonexistent_path, 2);
    assert_eq!(depth_result.unwrap_err(), ScanError::NotCached);
}

#[test]
fn test_file_path_errors() {
    let mut scanner = DiskScanner::new();
    let readme = file(ROOT, "readme.txt", 5000, 15);
    let info_result = scanner.build_cache(&readme);
    assert!(info_result.is_err());
    assert!(info_result.unwrap_err().message().contains("not a directory"));
}
