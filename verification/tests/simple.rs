use hrx_get::Archive;

fn data() -> &'static str {
    "<===> hello.md\
     \n# Hello world\
     \nThis is a simple markdown file.\
     \n\
     \n<===>\
     \nThis is just a comment.\
     \n<===> foo.txt\
     \nThis is something else.\n"
}

fn other_data() -> &'static str {
    "<=====> hello.md\
     \n# Hello world\
     \nThis is a simple markdown file.\
     \n\
     \n<=====> dir/whatever\
     \n<=====> foo.txt\
     \nThis is something else.\n"
}

#[test]
fn get_names() {
    let archive = Archive::parse(data()).unwrap();
    assert_eq!(archive.names(), ["foo.txt", "hello.md"])
}

#[test]
fn get_existing_nonlast() {
    let archive = Archive::parse(data()).unwrap();
    assert_eq!(
        archive.get("hello.md").unwrap(),
        "# Hello world\nThis is a simple markdown file.\n"
    )
}

#[test]
fn get_existing_last() {
    let archive = Archive::parse(data()).unwrap();
    assert_eq!(archive.get("foo.txt").unwrap(), "This is something else.\n")
}

#[test]
fn get_unexisting() {
    let archive = Archive::parse(data()).unwrap();
    assert_eq!(archive.get("bar.txt"), None)
}

#[test]
fn get_other_existing() {
    let archive = Archive::parse(other_data()).unwrap();
    assert_eq!(
        archive.get("hello.md").unwrap(),
        "# Hello world\nThis is a simple markdown file.\n"
    )
}

#[test]
fn get_existing_empty() {
    let archive = Archive::parse(other_data()).unwrap();
    assert_eq!(archive.get("dir/whatever").unwrap(), "")
}
