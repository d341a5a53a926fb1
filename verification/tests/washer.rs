use sprig::washer::Washer;

fn washer<'a>() -> Washer<'a> {
    Washer {
        src: " \n\r\n pon  \n\r\n <!-- \n\r\n cho  \n\r\n <!-- \n\r\n cho  \n\r\n -->  \n\r\n pon  \n\r\n -->  \n\r\n pon  \n\r\n <!-- \n\r\n cho  \n\r\n ",
    }
}

#[test]
fn parser_t_washer_remove_comments() {
    let t_00 = washer().remove_comments();
    assert_eq!(t_00, String::from(" \n\r\n pon  \n\r\n   \n\r\n pon  \n\r\n -->  \n\r\n pon  \n\r\n "));
}

#[test]
fn parser_t_washer_wash() {
    let t_00 = washer().wash();
    assert_eq!(t_00, String::from("pon  \n\r\n   \n\r\n pon  \n\r\n -->  \n\r\n pon"));
}

#[test]
fn washer_keeps_what_follows_a_stray_closing_mark() {
    let w = Washer { src: " \n\r\n pon  \n\r\n <!-- c1 <!-- c2 -->  pon  -->  pon  \n\r\n <!-- tail " };
    assert_eq!(w.wash(), "pon  \n\r\n   pon  -->  pon");
}

#[test]
fn washer_overlapping_marks() {
    assert_eq!(Washer { src: "a<!-->b" }.remove_comments(), "ab");
    assert_eq!(Washer { src: "a<!--b" }.remove_comments(), "a");
    assert_eq!(Washer { src: "" }.wash(), "");
    assert_eq!(Washer { src: "-->" }.wash(), "-->");
}

#[test]
fn wash_twice_changes_nothing_without_a_new_mark() {
    let once = Washer { src: "  x <!-- y --> z  " }.wash();
    let twice = Washer { src: &once }.wash();
    assert_eq!(once, "x  z");
    assert_eq!(twice, once);
}

#[test]
fn wash_twice_takes_out_a_mark_that_came_together() {
    let once = Washer { src: "<!<!---->--" }.wash();
    assert_eq!(once, "<!--");
    let twice = Washer { src: &once }.wash();
    assert_eq!(twice, "");
}
