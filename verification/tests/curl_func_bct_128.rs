use curl_troika_benchmark::constants::NUM_CURL_ROUNDS;
use curl_troika_benchmark::convert::{from_tryte_string, string_from_trytes, trytes_from_trits};
use curl_troika_benchmark::curl_func_bct_128::bct_fcurl_128;

const MAINNET_TRYTES_1: &str = "TLFCFY9IMZVINTAZRCUWTKAFENIBIFOGKWDZQIRTYSVVHTSIIZZ9RLUYVTLXEHACXIUFJJQNFRJYMGGYDWOBNMTPFE9CGVVTREVUJKIXRHSOPFAXMNEMHEW9ZE9HVFEDEORKWGLNECZ9MXLDHPBAOMO9ZMSZJCZLAWWZKOLHBASHYNMCBCPZOXOLLVMFZVCTUDQZSIUSITRDHHXGAOVTOMSKDTZXLSCNHNXJNVGOTZPJDRHOBUAPIAIGLCETVDWSOPEKAOWBNUIEUTTLPFQLRYVRJQJOCBVOZEK9TQMJQUPEZKLHIVMO9TRIUBQNXJYIXFUWFUYWDIIDBQXRYULR9RXPSLTRFY9IIMQBLGOXUZJAKFSEJCSTYP9SWRFCNTMDMRFFWCVZTNFYLFZISPCQ99OSTMJBNLYCQLKWETRLJEOEBJZBO9ZUZMGQIRCCLBANSVYABGKMQCKWIWHHH9FGKGIURCJDKTIQBFENQCYWAX9WHNQ9OKGIWILNFJGMERJNBHDPNFCASDKZLOXLALOSMUFXYKKCDKWVX9PBOVXMAICVTHBLPWPFWJWYBTLJLXNOHREEFTJDLTYPPFMZ9MTPBHNXQL9MXRLGMKRN9EJYZMDZEOZOMKVYWKORKIBKDYZTCPOHYIADIVJWCHRVWCE9DSSHIEEINJYQWBFBTOCZOBL9LLFKWIFAJT9ZQKEUZTBARTEYUBYQOKMRMKWLTJOPVKIDXIUWQFLVWBTAYNOREZSCKAGRGVRLQUBUGKKHLL9YBFMGUMNSUMAXMCRQOQHBYJJRBMFQIUPZEBXFMHYJMAMAHUMMBLRDPBIOMJ9OCHBSBIFX9YSXPPVDMUCICHCSYRWUXXUEROHXGGEJBFJE9S9QGAQ9YOPIZOKGXRXMMFBLGVMC9QXJZTI99TATFJDJORMGJPAQGQICFHYAMWEUKWYYKIGTWYPNC9ZPQEKWAOZVCBIPZUTZUKJXFPWTQUKWIYJBULBJEJZGYEHVYUHFROLQYYPI9WCXHHWEITITPTXMTBWLJRAYV9LZK9FVGBOQRSWEFRMWBKBHAYWETHDTAAPOPPHFOX9PYQAXDVMWXGW9HDTLSINGRWGODCBNVXXYVDKJ9OROIZAULXMZUEVSDPWUJC9FEQAWMDOI9TALZAHX9ZHYSQEJOSZTHZPKWMZBTWUKNJUJNTZRWEYVWUAXVEP9NSZVYHLHZWDDTCQQTCDHTQPZXTM9ERHNNEORYBUKIRJPZORWXJDRRURZCBYLMFZKSZZVJIWXBXSKJMKUAFYKRQKVIGJJGYLXKFWZEIU9JJXRQSOFDLGXELTVBXKPDLKRLJTGVOD9QGIVVWS9EZAMBPDIEABEJJKTYQZVOD9TIGXPDJGJBRLHXCKKFFVQXFPQNKLMOMOJUDNFZCYEP9CQVNQKRYLCMCFNM9JIE9XUCDBX9ABNHZTSRROFYZCXDRLRBMYYRWUEWHC9QGGHBIQVBISISOZWXGXKQWSOASERXWNQXHWUGXDKIVDDWZZIRIERRSEOMEREYYCO9QIXKQOZQZALPBNQCBJWPV9BYDGYTDJPHXFZQ9CQZIDZTORKIABS9LFWOPWISFESVOTWIBTGDFIZBDOAJO9DJVAIQVUYEAWPRETXYWFMMUUUEUMWPGTWEUSZHJUCYGZDCSGVZGNTJBWGHGYZEOTOVIYAODKWJJLJFZGIKVGUYXRGAFMOFDM9SHSWVSDKAJGEVCORATXJHEGLYTVCGCTXZVUFVLZ9CYFCA9MM9STIZHKTGYJUACFVEGSZYJBNRWTRO9JUWZWOSPGJYIRTQSD9EPHONGYDWUQXYRHGXUSVGIAPVGOLLFQTQOYSOMHAOCNVKLPGRKIEVZGCFVWLTBEMM9QMUML9RVYCMOFIUCNTTALZKSGIPVNLFUGDPTHVGKDUIOZMKAEPYSYZTNFTMWJY99VGIM9YHI9WIVVJAANTHPKT9HOWWZSYRDMVJCSKASOZOOPAUOMMSOWNUTTGREQWPQDKRGGSODHKPFUIXKLVDFJSOQH9ZYMREQNXHHPOEISKPGTNIEBKV9SEFTKZZZVXQAYFPYTDMJVUULL9YNMITHTRB9GKILOFJCCYXKMPIYNNOXTVNLDKTODGEADIRIUXHNGVAAIEFYG9BE9BRNAZUABPF9BVODCZGPXBLBVJIXYLLYDVDUKVYGIWETMSKYXGYMXSXGKPDZMG9NOFIMSKFKIHTQSAVGIWERREF9MEAOCDE99FXRR9FDCKOZOJBTOZEVLLCASBONUMPDVD9XWSHEGZ9999999999999999999999999999999999999999999999VPRPPZD99A99999999J99999999KOJZIA9PSFRKG9ZUOJO9PGDIEFPGPSDKVPVBSXDIOOXAPZHKLJHEULIJKYRTDXOJKTRFYYSABGTBRKVCBBZZSWTVHQSQGJKQAHLINBNNLFTQERSITF9BAJCODBNLLQEQZETPQBGWFYCOBUARDAGTCGQCGOUBLA9999QPBMLSSKBO9ILX9QKYCAXNHLK9KFUJYO99GOO99VYROHOVXACRKYPFVY9JRSHJIKFGBHOCXQFPMZZ9999999999999999999999999999999HKJSFUCME999999999MMMMMMMMMCVMNOI9PFCHLRVXSUEOCRLTRMUF";
const MAINNET_HASH_1: &str =
    "MGPBAHYHKSQMMXXONAOOEDQS9RFEKMOOJUCGXSFYLXBHQFWIHMJGFJWDSZTGKHNBCSENCXSPQOSZ99999";

#[test]
fn bct_fcurl_128_works() {
    let mut transactions = vec![];
    let tx_trits = from_tryte_string(MAINNET_TRYTES_1);
    transactions.push(tx_trits);

    let hash_trits128 = bct_fcurl_128(&transactions, NUM_CURL_ROUNDS);
    let hash_trits1 = hash_trits128[0];

    let tryte_string1 = string_from_trytes(&trytes_from_trits(&hash_trits1));

    println!("{}", tryte_string1);

    assert_eq!(MAINNET_HASH_1, tryte_string1);
}

#[test]
fn bct_fcurl_128_empty_batch() {
    let transactions: Vec<Vec<i8>> = vec![];
    assert!(bct_fcurl_128(&transactions, NUM_CURL_ROUNDS).is_empty());
}

#[test]
fn bct_fcurl_128_even_rounds_keep_last_odd_round() {
    // the state keeps the last odd-numbered round: 2 rounds hash as 1
    let transactions = vec![from_tryte_string(MAINNET_TRYTES_1)];
    assert_eq!(bct_fcurl_128(&transactions, 1), bct_fcurl_128(&transactions, 2));
    assert_ne!(bct_fcurl_128(&transactions, 1), bct_fcurl_128(&transactions, 3));
}

#[test]
fn bct_fcurl_128_second_batch_hashes_its_own_transactions() {
    let tx = from_tryte_string(MAINNET_TRYTES_1);
    let mut other = tx.clone();
    other[0] = if other[0] == 1 { 0 } else { 1 };
    let mut transactions = vec![tx.clone(); 130];
    transactions[128] = other.clone();
    let hashes = bct_fcurl_128(&transactions, NUM_CURL_ROUNDS);
    assert_eq!(130, hashes.len());
    let own = bct_fcurl_128(&vec![other], NUM_CURL_ROUNDS);
    assert_eq!(own[0], hashes[128]);
    assert_ne!(hashes[0], hashes[128]);
    assert_eq!(hashes[0], hashes[129]);
    let tryte_string = string_from_trytes(&trytes_from_trits(&hashes[129]));
    assert_eq!(MAINNET_HASH_1, tryte_string);
}

#[test]
fn bct_fcurl_128_zero_rounds_keeps_last_block() {
    // with no round the state holds the last 243 trits absorbed
    let mut transactions = vec![vec![0i8; 8019]; 128];
    transactions.push(vec![1i8; 8019]);
    let hashes = bct_fcurl_128(&transactions, 0);
    assert_eq!(129, hashes.len());
    for k in 0..128 {
        assert_eq!([0i8; 243], hashes[k]);
    }
    assert_eq!([1i8; 243], hashes[128]);
}
