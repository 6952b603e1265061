use asadoc::attributes::{
    add_attribute_entries, assembly_attributes, distro_attributes, latest_enterprise_version, parse_version,
    resolve_references,
};
use asadoc::docs::{
    extract_blocks, file_stem, format_reference, heading, included_module, module_for_rendering, path_of_module,
    read_assembly, source_lang, unique_in_order,
};
use asadoc::maps::TextMap;

#[test]
fn blocks_are_found_and_numbered() -> Result<(), String> {
    let text = "= Title\n\n== Step one\n\n. Run *this*:\n+\n[source,terminal]\n----\n$ ls\n----\n\n[source,yaml]\n----\na: 1\n\nb: 2\n----\n.Another\n[source,terminal]\n----\n$ pwd\n----\n";
    let blocks = extract_blocks("mod", text)?;
    let references: Vec<&str> = blocks.iter().map(|block| block.reference.as_str()).collect();
    assert_eq!(references, ["mod/terminal-001", "mod/yaml-001", "mod/terminal-002"]);
    assert_eq!(blocks[0].content, "$ ls\n");
    assert_eq!(blocks[0].line, 9);
    assert_eq!(blocks[0].section, Some("Step one".to_owned()));
    assert_eq!(blocks[1].content, "a: 1\n\nb: 2\n");
    assert_eq!(blocks[2].lead, Some("Another".to_owned()));
    assert_eq!(blocks[2].seq, 2);
    Ok(())
}

#[test]
fn assemblies_list_their_modules_once() -> Result<(), String> {
    let text = "= The guide\n\ninclude::modules/a.adoc[leveloffset=+1]\ninclude::_attributes/x.adoc[]\ninclude::modules/b-2.adoc[]\ninclude::modules/a.adoc[]\n";
    let assembly = read_assembly("networking/dpf/guide.adoc", text)?;
    assert_eq!(assembly.id, "guide");
    assert_eq!(assembly.path, "networking/dpf/guide.adoc");
    assert_eq!(assembly.title, "The guide");
    assert_eq!(assembly.modules, ["a", "b-2"]);
    assert_eq!(read_assembly("x/no-title.adoc", "")?.title, "no-title");
    assert_eq!(path_of_module("a"), "modules/a.adoc");
    assert_eq!(included_module("include::modules/a.adoc[]")?, Some("a".to_owned()));
    assert_eq!(included_module("include::other/a.adoc[]")?, None);
    Ok(())
}

#[test]
fn lines_of_docs_are_told_apart() -> Result<(), String> {
    assert_eq!(heading("=== Deep"), Some("Deep".to_owned()));
    assert_eq!(heading("=not"), None);
    assert_eq!(source_lang("[source,yaml,subs=\"x\"]")?, Some("yaml".to_owned()));
    assert_eq!(source_lang("[source, bash]")?, source_lang("[source, bash]")?);
    assert_eq!(source_lang("[NOTE]")?, None);
    assert_eq!(format_reference("m", "yaml", 12), "m/yaml-012");
    assert_eq!(file_stem("a/b.c.adoc"), "b.c");
    let items = vec!["b".to_owned(), "a".to_owned(), "b".to_owned()];
    assert_eq!(unique_in_order(&items), ["b", "a"]);
    assert_eq!(module_for_rendering("a\n// gone\n //kept\nb"), "a\n //kept\nb");
    Ok(())
}

#[test]
fn the_latest_branch_is_the_product_version() -> Result<(), String> {
    let map = "openshift-enterprise:\n  name: OpenShift\n  branches:\n    enterprise-4.9:\n      name: x\n    enterprise-4.22:\n      name: y\n    main:\n      name: z\n    1: {}\n";
    let attributes = distro_attributes(&Some(map.to_owned()))?;
    assert_eq!(attributes.get("product-title"), Some("OpenShift"));
    assert_eq!(attributes.get("product-version"), Some("4.22"));
    assert!(distro_attributes(&None)?.entries.is_empty());
    assert!(distro_attributes(&Some("a: [".to_owned())).is_err());
    assert_eq!(parse_version("4", "22")?, (4, 22));
    assert!(parse_version("4", "99999999999")
        .is_err_and(|error| error.starts_with("parsing a branch's minor version")));
    let branches = vec![Some("enterprise-3.11".to_owned()), None, Some("enterprise-4.x".to_owned())];
    assert_eq!(latest_enterprise_version(&branches)?, Some((3, 11)));
    Ok(())
}

#[test]
fn conditional_entries_are_honored() -> Result<(), String> {
    let mut known = TextMap::new();
    known.set("openshift-enterprise".to_owned(), String::new());
    let text = ":a: 1\nifdef::openshift-enterprise[]\n:b: 2\nifndef::x,openshift-enterprise[]\n:c: 3\nendif::[]\nendif::[]\nifdef::openshift-origin[]\n:d: 4\nendif::[]\n:e: 5\n";
    let attributes = add_attribute_entries(text, known)?;
    let names: Vec<&str> = attributes.entries.iter().map(|entry| entry.0.as_str()).collect();
    assert_eq!(names, ["a", "b", "e", "openshift-enterprise"]);
    Ok(())
}

#[test]
fn references_are_resolved_from_the_outside_in() -> Result<(), String> {
    let mut attributes = TextMap::new();
    attributes.set("a".to_owned(), "{b}!{nbsp}{unknown}".to_owned());
    attributes.set("b".to_owned(), "<{c}>".to_owned());
    attributes.set("c".to_owned(), "end".to_owned());
    let resolved = resolve_references(attributes)?;
    assert_eq!(resolved.get("a"), Some("<end>!\u{a0}{unknown}"));
    Ok(())
}

#[test]
fn attributes_come_from_all_the_places() -> Result<(), String> {
    let mut files = TextMap::new();
    files.set("_attributes/common.adoc".to_owned(), ":toc:\n:short: {product-title}\n".to_owned());
    let map = "openshift-enterprise:\n  name: OpenShift\n";
    let text = "= T\n:context: guide\ninclude::_attributes/common.adoc[]\ninclude::modules/a.adoc[]\n:late: x\n";
    let attributes = assembly_attributes(&Some(map.to_owned()), "guide.adoc", text, &files)?;
    assert_eq!(attributes.get("short"), Some("OpenShift"));
    assert_eq!(attributes.get("context"), Some("guide"));
    assert_eq!(attributes.get("toc"), None);
    assert_eq!(attributes.get("late"), None);
    Ok(())
}

#[test]
fn versions_and_maps_that_cannot_be_read_say_why() {
    assert_eq!(
        parse_version("4", "4294967296"),
        Err("parsing a branch's minor version: number too large to fit in target type".to_owned())
    );
    assert_eq!(
        parse_version("\u{664}", "1"),
        Err("parsing a branch's major version: invalid digit found in string".to_owned())
    );
    assert_eq!(
        parse_version("9999999999\u{664}", "1"),
        Err("parsing a branch's major version: number too large to fit in target type".to_owned())
    );
    assert_eq!(
        parse_version("4294967295\u{664}", "1"),
        Err("parsing a branch's major version: invalid digit found in string".to_owned())
    );
    assert_eq!("9999999999\u{664}".parse::<u32>().map_err(|error| error.to_string()), Err("number too large to fit in target type".to_owned()));
    assert_eq!("4294967295\u{664}".parse::<u32>().map_err(|error| error.to_string()), Err("invalid digit found in string".to_owned()));
    assert_eq!("".parse::<u32>().map_err(|error| error.to_string()), Err("cannot parse integer from empty string".to_owned()));
    let error = distro_attributes(&Some("a: [".to_owned())).err();
    assert_eq!(
        error,
        Some("parsing _distro_map.yml: did not find expected node content at line 2 column 1, while parsing a flow node".to_owned())
    );
    let map = Some("openshift-enterprise:\n  branches:\n    enterprise-4.99999999999: {}\n".to_owned());
    assert_eq!(
        distro_attributes(&map).err(),
        Some("finding the latest enterprise branch: parsing a branch's minor version: number too large to fit in target type".to_owned())
    );
}
