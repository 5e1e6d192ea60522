use segtables::publicise::publicise;

#[test]
fn items_become_public() {
    let text = "#![allow(x)]\nfn a() {}\nstatic B: u8 = 1;\nconst C: u8 = 2;\n    fn inner() {}\nuse x;\r\nfn d()";
    assert_eq!(
        publicise(text),
        "pub fn a() {}\npub static B: u8 = 1;\npub const C: u8 = 2;\n    fn inner() {}\nuse x;\npub fn d()\n"
    );
}

#[test]
fn empty_and_blank_lines() {
    assert_eq!(publicise(""), "");
    assert_eq!(publicise("a\n\n"), "a\n\n");
    assert_eq!(publicise("\n"), "\n");
    assert_eq!(publicise("#![x]"), "");
    assert_eq!(publicise("fnord\n"), "fnord\n");
}
