use curl_troika_benchmark::constants::NUM_CURL_ROUNDS;
use curl_troika_benchmark::convert::{from_tryte_string, string_from_trytes, trytes_from_trits};
use curl_troika_benchmark::curl_func_bct_128::bct_fcurl_128;
use curl_troika_benchmark::simd_bct_fcurl::{i64x4, simd_bct_fcurl_64};

const MAINNET_TRYTES_1: &str = "TLFCFY9IMZVINTAZRCUWTKAFENIBIFOGKWDZQIRTYSVVHTSIIZZ9RLUYVTLXEHACXIUFJJQNFRJYMGGYDWOBNMTPFE9CGVVTREVUJKIXRHSOPFAXMNEMHEW9ZE9HVFEDEORKWGLNECZ9MXLDHPBAOMO9ZMSZJCZLAWWZKOLHBASHYNMCBCPZOXOLLVMFZVCTUDQZSIUSITRDHHXGAOVTOMSKDTZXLSCNHNXJNVGOTZPJDRHOBUAPIAIGLCETVDWSOPEKAOWBNUIEUTTLPFQLRYVRJQJOCBVOZEK9TQMJQUPEZKLHIVMO9TRIUBQNXJYIXFUWFUYWDIIDBQXRYULR9RXPSLTRFY9IIMQBLGOXUZJAKFSEJCSTYP9SWRFCNTMDMRFFWCVZTNFYLFZISPCQ99OSTMJBNLYCQLKWETRLJEOEBJZBO9ZUZMGQIRCCLBANSVYABGKMQCKWIWHHH9FGKGIURCJDKTIQBFENQCYWAX9WHNQ9OKGIWILNFJGMERJNBHDPNFCASDKZLOXLALOSMUFXYKKCDKWVX9PBOVXMAICVTHBLPWPFWJWYBTLJLXNOHREEFTJDLTYPPFMZ9MTPBHNXQL9MXRLGMKRN9EJYZMDZEOZOMKVYWKORKIBKDYZTCPOHYIADIVJWCHRVWCE9DSSHIEEINJYQWBFBTOCZOBL9LLFKWIFAJT9ZQKEUZTBARTEYUBYQOKMRMKWLTJOPVKIDXIUWQFLVWBTAYNOREZSCKAGRGVRLQUBUGKKHLL9YBFMGUMNSUMAXMCRQOQHBYJJRBMFQIUPZEBXFMHYJMAMAHUMMBLRDPBIOMJ9OCHBSBIFX9YSXPPVDMUCICHCSYRWUXXUEROHXGGEJBFJE9S9QGAQ9YOPIZOKGXRXMMFBLGVMC9QXJZTI99TATFJDJORMGJPAQGQICFHYAMWEUKWYYKIGTWYPNC9ZPQEKWAOZVCBIPZUTZUKJXFPWTQUKWIYJBULBJEJZGYEHVYUHFROLQYYPI9WCXHHWEITITPTXMTBWLJRAYV9LZK9FVGBOQRSWEFRMWBKBHAYWETHDTAAPOPPHFOX9PYQAXDVMWXGW9HDTLSINGRWGODCBNVXXYVDKJ9OROIZAULXMZUEVSDPWUJC9FEQAWMDOI9TALZAHX9ZHYSQEJOSZTHZPKWMZBTWUKNJUJNTZRWEYVWUAXVEP9NSZVYHLHZWDDTCQQTCDHTQPZXTM9ERHNNEORYBUKIRJPZORWXJDRRURZCBYLMFZKSZZVJIWXBXSKJMKUAFYKRQKVIGJJGYLXKFWZEIU9JJXRQSOFDLGXELTVBXKPDLKRLJTGVOD9QGIVVWS9EZAMBPDIEABEJJKTYQZVOD9TIGXPDJGJBRLHXCKKFFVQXFPQNKLMOMOJUDNFZCYEP9CQVNQKRYLCMCFNM9JIE9XUCDBX9ABNHZTSRROFYZCXDRLRBMYYRWUEWHC9QGGHBIQVBISISOZWXGXKQWSOASERXWNQXHWUGXDKIVDDWZZIRIERRSEOMEREYYCO9QIXKQOZQZALPBNQCBJWPV9BYDGYTDJPHXFZQ9CQZIDZTORKIABS9LFWOPWISFESVOTWIBTGDFIZBDOAJO9DJVAIQVUYEAWPRETXYWFMMUUUEUMWPGTWEUSZHJUCYGZDCSGVZGNTJBWGHGYZEOTOVIYAODKWJJLJFZGIKVGUYXRGAFMOFDM9SHSWVSDKAJGEVCORATXJHEGLYTVCGCTXZVUFVLZ9CYFCA9MM9STIZHKTGYJUACFVEGSZYJBNRWTRO9JUWZWOSPGJYIRTQSD9EPHONGYDWUQXYRHGXUSVGIAPVGOLLFQTQOYSOMHAOCNVKLPGRKIEVZGCFVWLTBEMM9QMUML9RVYCMOFIUCNTTALZKSGIPVNLFUGDPTHVGKDUIOZMKAEPYSYZTNFTMWJY99VGIM9YHI9WIVVJAANTHPKT9HOWWZSYRDMVJCSKASOZOOPAUOMMSOWNUTTGREQWPQDKRGGSODHKPFUIXKLVDFJSOQH9ZYMREQNXHHPOEISKPGTNIEBKV9SEFTKZZZVXQAYFPYTDMJVUULL9YNMITHTRB9GKILOFJCCYXKMPIYNNOXTVNLDKTODGEADIRIUXHNGVAAIEFYG9BE9BRNAZUABPF9BVODCZGPXBLBVJIXYLLYDVDUKVYGIWETMSKYXGYMXSXGKPDZMG9NOFIMSKFKIHTQSAVGIWERREF9MEAOCDE99FXRR9FDCKOZOJBTOZEVLLCASBONUMPDVD9XWSHEGZ9999999999999999999999999999999999999999999999VPRPPZD99A99999999J99999999KOJZIA9PSFRKG9ZUOJO9PGDIEFPGPSDKVPVBSXDIOOXAPZHKLJHEULIJKYRTDXOJKTRFYYSABGTBRKVCBBZZSWTVHQSQGJKQAHLINBNNLFTQERSITF9BAJCODBNLLQEQZETPQBGWFYCOBUARDAGTCGQCGOUBLA9999QPBMLSSKBO9ILX9QKYCAXNHLK9KFUJYO99GOO99VYROHOVXACRKYPFVY9JRSHJIKFGBHOCXQFPMZZ9999999999999999999999999999999HKJSFUCME999999999MMMMMMMMMCVMNOI9PFCHLRVXSUEOCRLTRMUF";
const MAINNET_HASH_1: &str =
    "MGPBAHYHKSQMMXXONAOOEDQS9RFEKMOOJUCGXSFYLXBHQFWIHMJGFJWDSZTGKHNBCSENCXSPQOSZ99999";

#[test]
fn simd_bct_fcurl_works() {
    let mut transactions = vec![];
    let tx_trits = from_tryte_string(MAINNET_TRYTES_1);
    transactions.push(tx_trits);

    let hash_trits64 = simd_bct_fcurl_64(&transactions, NUM_CURL_ROUNDS);
    let hash_trits1 = hash_trits64[0];

    let tryte_string1 = string_from_trytes(&trytes_from_trits(&hash_trits1));

    assert_eq!(MAINNET_HASH_1, tryte_string1);
}

#[test]
fn simd_and_128_agree_on_a_batch() {
    let tx = from_tryte_string(MAINNET_TRYTES_1);
    let mut other = tx.clone();
    other[10] = -other[10];
    other[20] = if other[20] == 0 { 1 } else { 0 };
    let transactions = vec![tx, other];
    let a = simd_bct_fcurl_64(&transactions, NUM_CURL_ROUNDS);
    let b = bct_fcurl_128(&transactions, NUM_CURL_ROUNDS);
    assert_eq!(a, b);
    assert_ne!(a[0], a[1]);
}

#[test]
fn i64x4_lanes() {
    let v = [1i64, -2, 3, 0, 7];
    let a = i64x4::new(&v, 1);
    assert_eq!((-2, 3, 0, 7), (a.0, a.1, a.2, a.3));
    let b = i64x4::new(&v, 0);
    let n = a.not();
    assert_eq!((1, -4, -1, -8), (n.0, n.1, n.2, n.3));
    let x = a.xor(&b);
    assert_eq!((-2 ^ 1, 3 ^ -2, 3, 7), (x.0, x.1, x.2, x.3));
    let y = a.and(&b);
    assert_eq!((-2 & 1, 3 & -2, 0, 0), (y.0, y.1, y.2, y.3));
    let z = a.or(&b);
    assert_eq!((-2 | 1, 3 | -2, 3, 7), (z.0, z.1, z.2, z.3));
}

#[test]
fn simd_bct_fcurl_second_batch_hashes_its_own_transactions() {
    let mut transactions = vec![vec![0i8; 8019]; 64];
    transactions.push(vec![1i8; 8019]);
    let hashes = simd_bct_fcurl_64(&transactions, 0);
    assert_eq!(65, hashes.len());
    for k in 0..64 {
        assert_eq!([0i8; 243], hashes[k]);
    }
    assert_eq!([1i8; 243], hashes[64]);
    let curl = simd_bct_fcurl_64(&transactions, NUM_CURL_ROUNDS);
    assert_eq!(bct_fcurl_128(&transactions, NUM_CURL_ROUNDS), curl);
    assert_ne!(curl[0], curl[64]);
}
