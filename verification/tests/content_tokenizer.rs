use pdf_view::content::tokenizer::{tokenize_stream, try_tokenize_stream, Token};

const SAMPLE_PDF_STREAM: &str = "
q Q q 0 0 612 792 re W n /Cs1 cs 1 sc 0 0 612 792 re f 0.6000000 i 0 0 612 792
re f 0.3019608 sc 0 i q 1 0 0 -1 0 792 cm BT 36 0 0 -36 72 106 Tm /F1.0 1
Tf (Sample PDF) Tj ET Q 0 sc q 1 0 0 -1 0 792 cm BT 18 0 0 -18 72 132 Tm /F2.0
1 Tf (This is a simple PDF Þle. Fun fun fun.) Tj ET Q q 1 0 0 -1 0 792 cm
BT 12 0 0 -12 72 163 Tm /F3.0 1 Tf [ (Lor) 17 (em) -91 ( ) -35 (ipsum) -77
( ) -49 (dolor) 12 ( ) -139 (sit) -38 ( ) -89 (amet,) 61 ( ) -188 (consectetuer)
-5 ( ) -122 (adipiscing) -35 ( ) -91 (elit.) -1 ( ) -125 (Phasellus) -23 ( )
-103 (facilisis) -37 ( ) -89 (odio) -12 ( ) -114 (sed) -34 ( ) -93 (mi. )
] TJ ET Q q 1 0 0 -1 0 792 cm BT 12 0 0 -12 72 178 Tm /F3.0 1 Tf [ (Curabitur)
-18 ( ) -41 (suscipit.) 21 ( ) -82 (Nullam) -94 ( ) 34 (vel) -6 ( ) -53 (nisi.)
-3 ( ) -57 (Etiam) -73 ( ) 12 (semper) 5 ( ) -65 (ipsum) -47 ( ) -13 (ut)
-43 ( ) -16 (lectus.) 25 ( ) -86 (Pr) 17 (oin) 68 ( ) -128 (aliquam,) 35 ( )
-96 (erat) -61 ( eget ) ] TJ ET Q q 1 0 0 -1 0 792 cm BT 12 0 0 -12 72 193
Tm /F3.0 1 Tf [ (phar) 17 (etra) -91 ( ) -168 (commodo,) 67 ( ) -326 (er)
17 (os) -43 ( ) -216 (mi) 11 ( ) -271 (condimentum) -109 ( ) -150 (quam,)
1 ( ) -261 (sed) 28 ( ) -288 (commodo) -7 ( ) -252 (justo ) -260 (quam) -82
( ) -176 (ut) -46 ( ) -213 (velit. ) ] TJ ET Q q 1 0 0 -1 0 792 cm BT 12 0 0 -12 72 208
Tm /F3.0 1 Tf [ (Integer) -36 ( ) -374 (a) -79 ( ) -330 (erat.) 34 ( ) -445
(Cras) -8 ( ) -402 (laor) 17 (eet) -13 ( ) -397 (ligula) -75 ( ) -335 (cursus)
-17 ( ) -393 (enim.) 22 ( ) -432 (Aenean) 54 ( ) -464 (scelerisque) -7 ( )
-403 (velit) -5 ( ) -405 (et) -2 ( ) -408 (tellus. ) ] TJ ET Q q 1 0 0 -1 0 792
cm BT 12 0 0 -12 72 223 Tm /F3.0 1 Tf [ (V) 54 (estibulum) -65 ( ) -105 (dictum)
-90 ( ) -80 (aliquet) -77 ( ) -92 (sem.) 64 ( ) -234 (Nulla) -24 ( ) -145
(facilisi.) 52 ( ) -222 (V) 54 (estibulum) -65 ( ) -105 (accumsan) 12 ( )
-183 (ante) -1 ( ) -168 (vitae) 11 ( ) -181 (elit.) 5 ( ) -175 (Nulla ) ]
TJ ET Q q 1 0 0 -1 0 792 cm BT 12 0 0 -12 72 238 Tm /F3.0 1 Tf [ (erat) -18
( ) -218 (dolor) 91 (,) 34 ( ) -270 (blandit) 1 ( ) -237 (in,) 14 ( ) -251
(rutrum) -55 ( ) -181 (quis,) 13 ( ) -249 (semper) 17 ( ) -254 (pulvinar)
91 (,) 32 ( ) -268 (enim.) 64 ( ) -301 (Nullam) -125 ( ) -110 (varius) -28
( ) -207 (congue) 42 ( ) -278 (risus. ) ] TJ ET Q q 1 0 0 -1 0 792 cm BT 12 0 0 -12 72 253
Tm /F3.0 1 Tf [ (V) -6 (ivamus) -50 ( ) -266 (sollicitudin,) -3 ( ) -314 (metus)
7 ( ) -324 (ut) -65 ( ) -251 (inter) 17 (dum) -110 ( ) -206 (eleifend,) 58
( ) -375 (nisi) 40 ( ) -357 (tellus) 4 ( ) -321 (pellentesque) 43 ( ) -360
(elit,) 17 ( ) -334 (tristique ) ] TJ ET Q q 1 0 0 -1 0 792 cm BT 12 0 0 -12 72 268
Tm /F3.0 1 Tf [ (accumsan) 46 ( ) -281 (er) 17 (os) -4 ( ) -230 (quam) -113
( ) -122 (et) -35 ( ) -199 (risus.) 3 ( ) -238 (Suspendisse) 33 ( ) -268 (liber)
17 (o) -55 ( ) -179 (odio,) 22 ( ) -257 (mattis) -22 ( ) -212 (sit) -48 ( )
-187 (amet,) -7 ( ) -227 (aliquet) -13 ( ) -221 (eget, ) ] TJ ET Q q 1 0 0 -1 0 792
cm BT 12 0 0 -12 72 283 Tm /F3.0 1 Tf [ (hendr) 17 (erit) -54 ( ) -13 (vel,)
68 ( ) -136 (nulla.) -11 ( ) -56 (Sed) -27 ( ) -41 (vitae) 50 ( ) -118 (augue.)
7 ( ) -76 (Aliquam) -100 ( ) 32 (erat) -23 ( ) -45 (volutpat.) 26 ( ) -94
(Aliquam) -82 ( ) 14 (feugiat) -32 ( ) -35 (vulputate) -11 ( ) -56 (nisl. )
] TJ ET Q q 1 0 0 -1 0 792 cm BT 12 0 0 -12 72 298 Tm /F3.0 1 Tf [ (Suspendisse)
17 ( ) -58 (quis) -54 ( ) 14 (nulla) -24 ( ) -16 (pr) 17 (etium) -48 ( ) 8
(ante) 56 ( ) -96 (pr) 17 (etium) -51 ( ) 11 (mollis.) 52 ( ) -92 (Pr) 17
(oin) 74 ( ) -115 (velit) -43 ( ) 2 (ligula,) 52 ( ) -93 (sagittis) -47 ( )
6 (at,) 29 ( ) -70 (egestas) -31 ( ) -8 (a, ) ] TJ ET Q q 1 0 0 -1 0 792 cm
BT 12 0 0 -12 72 313 Tm /F3.0 1 Tf (pulvinar quis, nisl.) Tj ET Q q 1 0 0 -1 0 792
cm BT 12 0 0 -12 72 343 Tm /F3.0 1 Tf [ (Pellentesque ) -262 (sit) 1 ( ) -262
(amet) -43 ( ) -218 (lectus.) 60 ( ) -322 (Praesent) -1 ( ) -260 (pulvinar)
91 (,) 38 ( ) -299 (nunc) 39 ( ) -301 (quis) -61 ( ) -200 (iaculis) 5 ( )
-266 (sagittis,) -12 ( ) -249 (justo) -2 ( ) -259 (quam ) ] TJ ET Q q 1 0 0 -1 0 792
cm BT 12 0 0 -12 72 358 Tm /F3.0 1 Tf [ (lobortis) -19 ( ) -122 (tortor) 91
(,) 2 ( ) -143 (sed) -5 ( ) -135 (vestibulum) -60 ( ) -80 (dui) -13 ( ) -128
(metus) -12 ( ) -128 (venenatis) -38 ( ) -103 (est.) 37 ( ) -178 (Nunc) 2
( ) -143 (cursus) -42 ( ) -98 (ligula.) -12 ( ) -128 (Nulla) -47 ( ) -93 (facilisi. )
] TJ ET Q q 1 0 0 -1 0 792 cm BT 12 0 0 -12 72 373 Tm /F3.0 1 Tf [ (Phasellus)
-9 ( ) -12 (ullamcorper) 13 ( ) -36 (consectetuer) 9 ( ) -32 (ante.) 41 ( )
-64 (Duis) -20 ( ) -2 (tincidunt,) 56 ( ) -79 (ur) -18 (na) -50 ( ) 27 (id)
8 ( ) -30 (condimentum) -99 ( ) 76 (luctus,) 33 ( ) -56 (nibh ) ] TJ ET Q
q 1 0 0 -1 0 792 cm BT 12 0 0 -12 72 388 Tm /F3.0 1 Tf [ (ante) 37 ( ) -217
(vulputate) 4 ( ) -185 (sapien,) 55 ( ) -235 (id) 21 ( ) -202 (sagittis) -21
( ) -159 (massa) -63 ( ) -117 (or) 17 (ci) 34 ( ) -215 (ut) -8 ( ) -172 (enim.)
51 ( ) -232 (Pellentesque) 10 ( ) -191 (vestibulum) -88 ( ) -92 (convallis )
] TJ ET Q q 1 0 0 -1 0 792 cm BT 12 0 0 -12 72 403 Tm /F3.0 1 Tf [ (sem.)
27 ( ) -146 (Nulla) -29 ( ) -89 (consequat) -12 ( ) -107 (quam) -69 ( ) -50
(ut) -6 ( ) -112 (nisl.) 55 ( ) -175 (Nullam) -84 ( ) -34 (est.) 52 ( ) -171
(Curabitur) 14 ( ) -133 (tincidunt) -6 ( ) -112 (dapibus ) -119 (lor) 17 (em.)
64 ( ) -184 (Pr) 17 (oin ) ] TJ ET Q q 1 0 0 -1 0 792 cm BT 12 0 0 -12 72 418
Tm /F3.0 1 Tf [ (velit) -19 ( ) -177 (turpis,) 36 ( ) -233 (scelerisque) 11
( ) -207 (sit) -53 ( ) -142 (amet,) 31 ( ) -227 (iaculis) -50 ( ) -145 (nec,)
25 ( ) -222 (rhoncus) -18 ( ) -177 (ac,) 20 ( ) -216 (ipsum.) 48 ( ) -245
(Phasellus) 12 ( ) -209 (lor) 17 (em) -123 ( ) -72 (ar) 17 (cu, ) ] TJ ET
Q q 1 0 0 -1 0 792 cm BT 12 0 0 -12 72 433 Tm /F3.0 1 Tf [ (feugiat) -46 ( )
-239 (eu,) 17 ( ) -303 (gravida) -38 ( ) -247 (eu,) 25 ( ) -311 (consequat)
-40 ( ) -245 (molestie,) 41 ( ) -327 (ipsum.) -7 ( ) -278 (Nullam) -64 ( )
-221 (vel) -1 ( ) -284 (est) -58 ( ) -227 (ut) -79 ( ) -206 (ipsum) -72 ( )
-213 (volutpat ) ] TJ ET Q q 1 0 0 -1 0 792 cm BT 12 0 0 -12 72 448 Tm /F3.0
1 Tf (feugiat. Aenean pellentesque.) Tj ET Q q 1 0 0 -1 0 792 cm BT 12 0 0 -12 72 478
Tm /F3.0 1 Tf [ (In) 8 ( ) -124 (mauris.) 49 ( ) -164 (Pellentesque) 26 ( )
-141 (dui) 48 ( ) -163 (nisi,) 23 ( ) -139 (iaculis) -56 ( ) -59 (eu,) 3 ( )
-119 (rhoncus) -38 ( ) -77 (in,) 20 ( ) -136 (venenatis) -30 ( ) -85 (ac,)
11 ( ) -127 (ante.) 53 ( ) -168 (Ut) -73 ( ) -42 (odio) -59 ( ) -56 (justo, )
] TJ ET Q q 1 0 0 -1 0 792 cm BT 12 0 0 -12 72 493 Tm /F3.0 1 Tf [ (scelerisque )
-93 (vel,) 65 ( ) -158 (facilisis) 17 ( ) -110 (non,) 45 ( ) -138 (commodo)
9 ( ) -102 (a,) 9 ( ) -102 (pede.) 10 ( ) -103 (Cras) -17 ( ) -75 (nec) 10
( ) -103 (massa) -36 ( ) -56 (sit) -37 ( ) -55 (amet ) -92 (tortor) -46 ( )
-46 (volutpat ) ] TJ ET Q q 1 0 0 -1 0 792 cm BT 12 0 0 -12 72 508 Tm /F3.0
1 Tf [ (varius.) 27 ( ) -117 (Donec) 43 ( ) -133 (lacinia,) 4 ( ) -94 (neque)
57 ( ) -147 (a) -56 ( ) -33 (luctus) -51 ( ) -38 (aliquet,) -7 ( ) -82 (pede)
45 ( ) -135 (massa) -88 ( ) -1 (imper) 17 (diet) -72 ( ) -17 (ante,) 26 ( )
-116 (at) -41 ( ) -48 (varius) -7 ( ) -82 (lor) 17 (em ) ] TJ ET Q q 1 0 0 -1 0 792
cm BT 12 0 0 -12 72 523 Tm /F3.0 1 Tf [ (pede) 18 ( ) -157 (sed) 8 ( ) -146
(sapien.) 16 ( ) -154 (Fusce) 24 ( ) -163 (erat) -77 ( ) -60 (nibh,) 32 ( )
-170 (aliquet) -70 ( ) -67 (in,) 11 ( ) -149 (eleifend) -26 ( ) -111 (eget,)
56 ( ) -194 (commodo) -17 ( ) -120 (eget,) 65 ( ) -203 (erat.) -8 ( ) -129
(Fusce ) ] TJ ET Q q 1 0 0 -1 0 792 cm BT 12 0 0 -12 72 538 Tm /F3.0 1 Tf
[ (consectetuer) 91 (.) 48 ( ) -171 (Cras) -32 ( ) -90 (risus) -50 ( ) -72
(tortor) 91 (,) 36 ( ) -159 (porttitor) -7 ( ) -115 (nec,) -4 ( ) -118 (tristique)
33 ( ) -156 (sed,) 35 ( ) -158 (convallis) -18 ( ) -104 (semper) 91 (,) 58
( ) -181 (er) 17 (os.) 6 ( ) -129 (Fusce ) ] TJ ET Q q 1 0 0 -1 0 792 cm BT
12 0 0 -12 72 553 Tm /F3.0 1 Tf [ (vulputate) 8 ( ) -129 (ipsum) -66 ( ) -54
(a) -65 ( ) -55 (mauris.) 63 ( ) -184 (Phasellus) -47 ( ) -73 (mollis.) 53
( ) -174 (Curabitur) 16 ( ) -137 (sed) -11 ( ) -109 (ur) -18 (na.) 7 ( ) -128
(Aliquam) -48 ( ) -72 (nec) 8 ( ) -129 (sapien) 54 ( ) -175 (non ) ] TJ ET
Q q 1 0 0 -1 0 792 cm BT 12 0 0 -12 72 568 Tm /F3.0 1 Tf [ (nibh ) -204 (pulvinar)
-36 ( ) -168 (convallis.) 20 ( ) -226 (V) -6 (ivamus) -46 ( ) -159 (facilisis)
18 ( ) -223 (augue) 2 ( ) -207 (quis) 11 ( ) -217 (quam.) 68 ( ) -274 (Pr)
17 (oin) 6 ( ) -211 (cursus) -57 ( ) -147 (aliquet) -10 ( ) -195 (metus. )
] TJ ET Q q 1 0 0 -1 0 792 cm BT 12 0 0 -12 72 583 Tm /F3.0 1 Tf [ (Suspendisse)
17 ( ) -110 (lacinia.) 64 ( ) -157 (Nulla) -102 ( ) 9 (at ) -92 (tellus) -11
( ) -81 (ac) -19 ( ) -73 (turpis) -11 ( ) -80 (eleifend) -11 ( ) -81 (scelerisque.)
53 ( ) -146 (Maecenas) -47 ( ) -45 (a) -74 ( ) -17 (pede) -19 ( ) -73 (vitae )
] TJ ET Q q 1 0 0 -1 0 792 cm BT 12 0 0 -12 72 598 Tm /F3.0 1 Tf [ (enim commodo inter)
17 (dum. Donec odio. Sed sollicitudin dui vitae justo.) ] TJ ET Q q 1 0 0 -1 0 792
cm BT 12 0 0 -12 72 628 Tm /F3.0 1 Tf [ (Morbi) 45 ( ) -119 (elit) -2 ( )
-71 (nunc,) 6 ( ) -80 (facilisis) -60 ( ) -12 (a,) 3 ( ) -76 (mollis) -54
( ) -19 (a,) 9 ( ) -83 (molestie) 17 ( ) -91 (at,) 44 ( ) -117 (lectus.) 43
( ) -116 (Suspendisse) -4 ( ) -68 (eget) -14 ( ) -59 (mauris) -43 ( ) -29
(eu) 29 ( ) -102 (tellus ) ] TJ ET Q q 1 0 0 -1 0 792 cm BT 12 0 0 -12 72 643
Tm /F3.0 1 Tf [ (molestie) -9 ( ) -211 (cursus.) 53 ( ) -274 (Duis) -60 ( )
-161 (ut) -62 ( ) -159 (magna) -99 ( ) -121 (at) -36 ( ) -185 (justo) -66
( ) -155 (dignissim) -50 ( ) -170 (condimentum.) 68 ( ) -289 (Cum) -109 ( )
-112 (sociis) -36 ( ) -184 (natoque ) ] TJ ET Q q 1 0 0 -1 0 792 cm BT 12 0 0 -12 72 658
Tm /F3.0 1 Tf [ (penatibus) -28 ( ) -53 (et) -20 ( ) -61 (magnis) -50 ( )
-31 (dis) -34 ( ) -47 (parturient ) -83 (montes,) 26 ( ) -109 (nascetur) -57
( ) -24 (ridiculus) -13 ( ) -68 (mus.) 57 ( ) -140 (V) -6 (ivamus) -49 ( )
-32 (varius.) 4 ( ) -86 (Ut) -71 ( ) -10 (sit ) ] TJ ET Q q 1 0 0 -1 0 792
cm BT 12 0 0 -12 72 673 Tm /F3.0 1 Tf [ (amet ) -140 (diam) -54 ( ) -86 (suscipit)
-45 ( ) -96 (mauris) -6 ( ) -134 (or) -18 (nar) 17 (e) 5 ( ) -146 (aliquam.)
53 ( ) -194 (Sed) 27 ( ) -169 (varius.) 57 ( ) -198 (Duis) -53 ( ) -87 (ar)
17 (cu.) 14 ( ) -155 (Etiam) -57 ( ) -83 (tristique) -1 ( ) -139 (massa )
] TJ ET Q q 1 0 0 -1 0 792 cm BT 12 0 0 -12 72 688 Tm /F3.0 1 Tf [ (eget)
-27 ( ) -30 (dui.) 47 ( ) -104 (Phasellus) -43 ( ) -13 (congue.) 42 ( ) -99
(Aenean) 54 ( ) -111 (est) -65 ( ) 8 (erat,) 29 ( ) -86 (tincidunt) -54 ( )
-3 (eget,) 31 ( ) -88 (venenatis) 5 ( ) -62 (quis,) 61 ( ) -118 (commodo)
-11 ( ) -46 (at, ) ] TJ ET Q q 1 0 0 -1 0 792 cm BT 12 0 0 -12 72 703 Tm /F3.0
1 Tf (quam.) Tj ET Q Q
";

fn str_bytes(str: &str) -> Vec<u8> {
    return str.as_bytes().to_vec();
}

fn run_tokenizer(str: &str) -> Vec<Token> {
    return tokenize_stream(str_bytes(str));
}

#[test]
fn simple_seqs() {
    let actual = run_tokenizer("
        q Q q Q q Q
        ");
    let expected = vec![
        Token::SaveGraphicsState,
        Token::RestoreGraphicsState,
        Token::SaveGraphicsState,
        Token::RestoreGraphicsState,
        Token::SaveGraphicsState,
        Token::RestoreGraphicsState,
    ];
    assert_eq!(actual, expected);
}

#[test]
fn escaped_strings() {
    let actual = run_tokenizer("
        (\\(hello\\))
        ");
    let expected = vec![
        Token::StringBytes(str_bytes("\\(hello\\)")),
    ];
    assert_eq!(actual, expected);

    let actual = run_tokenizer("
        (hello\\n)
        ");
    let expected = vec![
        Token::StringBytes(str_bytes("hello\\n")),
    ];
    assert_eq!(actual, expected);
}

#[test]
fn w_keywords() {
    let actual = run_tokenizer("q Q W q Q");
    let expected = vec![
        Token::SaveGraphicsState,
        Token::RestoreGraphicsState,
        Token::W,
        Token::SaveGraphicsState,
        Token::RestoreGraphicsState,
    ];
    assert_eq!(actual, expected);

    let actual = run_tokenizer("q Q W* q Q");
    let expected = vec![
        Token::SaveGraphicsState,
        Token::RestoreGraphicsState,
        Token::WStar,
        Token::SaveGraphicsState,
        Token::RestoreGraphicsState,
    ];
    assert_eq!(actual, expected);
}

#[test]
fn tokenizer_sample_pdf() {
    // Just check that it doesn't crash
    run_tokenizer(SAMPLE_PDF_STREAM);
    assert!(try_tokenize_stream(str_bytes(SAMPLE_PDF_STREAM)).is_some());
}

#[test]
fn blank_streams_hold_no_tokens() {
    assert_eq!(try_tokenize_stream(b" \n\t\r ".to_vec()), Some(vec![]));
    assert_eq!(try_tokenize_stream(Vec::new()), Some(vec![]));
}
