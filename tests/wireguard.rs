use infrabase::wireguard::{chomp_newline, generate_keypair};

/// Does not chomp anything if there is no trailing newline
#[test]
fn test_chomp_newline_no_change() {
    for string in [b"hello\nworld".to_vec(), b" ".to_vec(), b"".to_vec()].iter() {
        let mut vec = string.clone();
        chomp_newline(&mut vec);
        assert_eq!(vec, *string);
    }
}

/// Chomps just one trailing newline
#[test]
fn test_chomp_newline() {
    let mut vec = b"hello\n".to_vec();
    chomp_newline(&mut vec);
    assert_eq!(vec, b"hello".to_vec());

    let mut vec = b"\n\n".to_vec();
    chomp_newline(&mut vec);
    assert_eq!(vec, b"\n".to_vec());
}

/// Keypair has privkey and pubkey of correct length
#[test]
fn test_generate_keypair() {
    // What `wg genkey` and `wg pubkey` print: a base64 key and a newline.
    let privkey_output = b"yAnz5TF+lXXJte14tji3zlMNq+hd2rYUIgJBgB3fBmk=\n".to_vec();
    let pubkey_output = b"HIgo9xNzJMWLKASShiTqIybxZ0U3wGLiUeJ1PKf8ykw=\n".to_vec();
    let keypair = generate_keypair(privkey_output, pubkey_output);
    assert_eq!(keypair.privkey.len(), 44);
    assert_eq!(keypair.pubkey.len(), 44);
}

#[test]
fn keypair_keeps_key_text() {
    let keypair = generate_keypair(b"abc\n".to_vec(), b"def".to_vec());
    assert_eq!(keypair.privkey, b"abc".to_vec());
    assert_eq!(keypair.pubkey, b"def".to_vec());
}

#[test]
fn chomp_newline_leaves_inner_newline() {
    let mut vec = b"a\nb\n".to_vec();
    chomp_newline(&mut vec);
    assert_eq!(vec, b"a\nb".to_vec());
}
